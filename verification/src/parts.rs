//! Splitting a file into numbered parts `<path>.0001`, `<path>.0002`, … of a
//! chosen size, and recovering the split file's name from a part to merge them.

use crate::batch::{result_view, PathResult};
use crate::codec::{
    after_last_slash, documented_file_name, is_plain_file_name, is_plain_last_component,
    may_lack_file_name, opt_view, path_file_name,
    starts_with_two_separators,
};
use crate::size_label::{fsize, size_label};
use crate::text::{
    chars_of, decimal, denotes, last_index, lemma_decimal_denotes, lemma_decimal_digits, lemma_decimal_len_small,
    lemma_last_index, lemma_last_index_facts, lemma_last_index_none, lemma_zero_padded_value,
    push_char, push_decimal, push_padded4, push_str, rfind_char, str_eq, string_of, zero_padded,
};
use vstd::prelude::*;

verus! {

/// The path of part `index` of the file at `path`: `<path>.` followed by the
/// index zero-padded to four digits.
pub open spec fn part_name(path: Seq<char>, index: nat) -> Seq<char> {
    path + seq!['.'] + zero_padded(index, 4)
}

/// The path of part `index` of the file at `path`.
pub fn part_path(path: &str, index: u32) -> (p: String)
    ensures
        p@ == part_name(path@, index as nat),
{
    let mut p = String::new();
    push_str(&mut p, path);
    push_char(&mut p, '.');
    push_padded4(&mut p, index);
    p
}

/// The chunk size in bytes for `size` units: `KB` is 1024 bytes, `MB`
/// 1048576, `Bytes` one; a size below 1 or another unit is refused.
pub open spec fn chunk_outcome(size: nat, unit: Seq<char>) -> Result<nat, Seq<char>> {
    if size < 1 {
        Err("Size must be a positive integer."@)
    } else if unit == "KB"@ {
        Ok(size * 1024)
    } else if unit == "MB"@ {
        Ok(size * 1048576)
    } else if unit == "Bytes"@ {
        Ok(size)
    } else {
        Err("Unit must be MB, KB, or Bytes."@)
    }
}

/// The chunk size in bytes for `size` units of `unit`.
pub fn chunk_size(size: u64, unit: &str) -> (r: Result<u64, String>)
    requires
        unit@ == "KB"@ ==> size * 1024 <= u64::MAX,
        unit@ == "MB"@ ==> size * 1048576 <= u64::MAX,
    ensures
        match chunk_outcome(size as nat, unit@) {
            Ok(n) => r == Ok::<u64, String>(n as u64),
            Err(m) => r matches Err(e) && e@ == m,
        },
{
    if size < 1 {
        let mut m = String::new();
        push_str(&mut m, "Size must be a positive integer.");
        assert(m@ =~= "Size must be a positive integer."@);
        return Err(m);
    }
    if str_eq(unit, "KB") {
        Ok(size * 1024)
    } else if str_eq(unit, "MB") {
        Ok(size * 1048576)
    } else if str_eq(unit, "Bytes") {
        Ok(size)
    } else {
        let mut m = String::new();
        push_str(&mut m, "Unit must be MB, KB, or Bytes.");
        assert(m@ =~= "Unit must be MB, KB, or Bytes."@);
        Err(m)
    }
}

/// The parts written so far while splitting the file at `path`.
#[derive(Debug)]
pub struct SplitProgress {
    path: String,
    count: u32,
}

impl View for SplitProgress {
    /// The path being split and the number of parts named so far.
    type V = (Seq<char>, nat);

    closed spec fn view(&self) -> (Seq<char>, nat) {
        (self.path@, self.count as nat)
    }
}

impl SplitProgress {
    /// No part named yet.
    pub fn new(path: String) -> (s: Self)
        ensures
            s@ == (path@, 0nat),
    {
        SplitProgress { path, count: 0 }
    }

    /// The number of parts named so far.
    pub fn count(&self) -> (n: u32)
        ensures
            n == self@.1,
    {
        self.count
    }

    /// After a read of `n` bytes: the path of the next part to write them to,
    /// or `None` once a read returns nothing and splitting is done.
    pub fn after_read(&mut self, n: usize) -> (part: Option<String>)
        requires
            n > 0 ==> old(self)@.1 < u32::MAX,
        ensures
            n == 0 ==> part is None && final(self)@ == old(self)@,
            n > 0 ==> final(self)@ == (old(self)@.0, old(self)@.1 + 1) && (part matches Some(p)
                && p@ == part_name(old(self)@.0, old(self)@.1 + 1)),
    {
        if n == 0 {
            None
        } else {
            self.count = self.count + 1;
            Some(part_path(self.path.as_str(), self.count))
        }
    }
}

/// The summary of a split of the file named `name` into `parts` parts of
/// `chunk` bytes.
pub open spec fn split_message(name: Seq<char>, parts: nat, chunk: nat) -> Seq<char> {
    name + "  ->  "@ + decimal(parts) + " part(s)  @ "@ + size_label(chunk)
}

/// Reports a split of the file named `name` into the parts `outputs` of
/// `chunk` bytes.
pub fn split_result(name: &str, outputs: Vec<String>, chunk: u64) -> (r: PathResult)
    ensures
        r.message@ == split_message(name@, outputs@.len(), chunk as nat),
        r.outputs@ == outputs@,
{
    let mut m = String::new();
    push_str(&mut m, name);
    push_str(&mut m, "  ->  ");
    push_decimal(&mut m, outputs.len() as u128);
    push_str(&mut m, " part(s)  @ ");
    let label = fsize(chunk);
    push_str(&mut m, label.as_str());
    assert(m@ =~= split_message(name@, outputs@.len(), chunk as nat));
    PathResult { message: m, outputs }
}

/// An ASCII decimal digit.
pub open spec fn is_ascii_digit(c: char) -> bool {
    '0' <= c <= '9'
}

/// The name of the merged file, from the file name of a part: everything
/// before the last `.`, provided what follows it is four decimal digits.
pub open spec fn part_base_outcome(name: Seq<char>) -> Result<Seq<char>, Seq<char>> {
    match last_index(name, '.') {
        Some(k) => {
            let suffix = name.subrange(k + 1, name.len() as int);
            if suffix.len() == 4 && forall|i: int|
                0 <= i < 4 ==> is_ascii_digit(#[trigger] suffix[i]) {
                Ok(name.subrange(0, k))
            } else {
                Err("Part file must end with .NNNN"@)
            }
        },
        None => Err("Part file must end with .NNNN"@),
    }
}

/// The merged file's name from the file name of a part.
pub fn part_base_name(name: &str) -> (r: Result<String, String>)
    ensures
        result_view(r) == part_base_outcome(name@),
{
    let v = chars_of(name);
    let ok = match rfind_char(&v, '.') {
        Some(k) => {
            let len = v.len();
            let ghost suffix = v@.subrange(k + 1, len as int);
            if len - (k + 1) == 4 && is_ascii_digit_char(v[k + 1]) && is_ascii_digit_char(v[k + 2])
                && is_ascii_digit_char(v[k + 3]) && is_ascii_digit_char(v[k + 4]) {
                assert(forall|i: int| 0 <= i < 4 ==> is_ascii_digit(#[trigger] suffix[i])) by {
                    assert(suffix[0] == v@[k + 1]);
                    assert(suffix[1] == v@[k + 2]);
                    assert(suffix[2] == v@[k + 3]);
                    assert(suffix[3] == v@[k + 4]);
                }
                return Ok(string_of(&v, 0, k));
            }
            proof {
                if suffix.len() == 4 {
                    assert(suffix[0] == v@[k + 1]);
                    assert(suffix[1] == v@[k + 2]);
                    assert(suffix[2] == v@[k + 3]);
                    assert(suffix[3] == v@[k + 4]);
                }
            }
            false
        },
        None => false,
    };
    let mut m = String::new();
    push_str(&mut m, "Part file must end with .NNNN");
    assert(m@ =~= "Part file must end with .NNNN"@);
    Err(m)
}

fn is_ascii_digit_char(c: char) -> (r: bool)
    ensures
        r == is_ascii_digit(c),
{
    '0' <= c && c <= '9'
}

/// The merged file's name, given the final component of the first part's
/// path: a path without one is refused.
pub open spec fn merge_base_outcome(file_name: Option<Seq<char>>) -> Result<Seq<char>, Seq<char>> {
    match file_name {
        Some(n) => part_base_outcome(n),
        None => Err("Invalid part file name."@),
    }
}

/// The merged file's name, given the final component of the first part's
/// path.
pub fn merge_base_name_from(file_name: Option<String>) -> (r: Result<String, String>)
    ensures
        result_view(r) == merge_base_outcome(opt_view(file_name)),
{
    match file_name {
        Some(name) => part_base_name(name.as_str()),
        None => {
            let mut m = String::new();
            push_str(&mut m, "Invalid part file name.");
            assert(m@ =~= "Invalid part file name."@);
            Err(m)
        },
    }
}

/// The merged file's name from the path of its first part: the outcome for
/// some final component of the path, the documented one where there is one.
/// Unless the path starts with two separators, the name is free of `/`.
pub fn merge_base_name(first_part: &str) -> (r: Result<String, String>)
    ensures
        documented_file_name(first_part@) is Some ==> result_view(r) == merge_base_outcome(
            documented_file_name(first_part@).unwrap(),
        ),
        exists|f: Option<Seq<char>>| result_view(r) == #[trigger] merge_base_outcome(f),
        !may_lack_file_name(first_part@) ==> exists|f: Seq<char>|
            is_plain_file_name(f) && result_view(r) == #[trigger] part_base_outcome(f),
        r matches Ok(n) ==> (!starts_with_two_separators(first_part@) ==> forall|i: int|
            0 <= i < n@.len() ==> #[trigger] n@[i] != '/'),
{
    let file_name = path_file_name(first_part);
    let r = merge_base_name_from(file_name);
    proof {
        assert(result_view(r) == merge_base_outcome(opt_view(file_name)));
        if r is Ok && !starts_with_two_separators(first_part@) {
            let n = r.unwrap()@;
            let f = file_name.unwrap()@;
            lemma_last_index_facts(f, '.');
            let k = last_index(f, '.').unwrap();
            assert(n == f.subrange(0, k));
            assert forall|i: int| 0 <= i < n.len() implies #[trigger] n[i] != '/' by {
                assert(n[i] == f[i]);
            }
        }
    }
    r
}

/// The search for the parts of a split file: parts `1, 2, …` are probed in
/// order until one is missing.
#[derive(Debug)]
pub struct PartSearch {
    base: String,
    count: u32,
}

impl View for PartSearch {
    /// The path of the split file and the number of parts found so far.
    type V = (Seq<char>, nat);

    closed spec fn view(&self) -> (Seq<char>, nat) {
        (self.base@, self.count as nat)
    }
}

impl PartSearch {
    /// No part found yet.
    pub fn new(base: String) -> (s: Self)
        ensures
            s@ == (base@, 0nat),
    {
        PartSearch { base, count: 0 }
    }

    /// The number of parts found so far.
    pub fn count(&self) -> (n: u32)
        ensures
            n == self@.1,
    {
        self.count
    }

    /// The path to probe next: the part after those found.
    pub fn candidate(&self) -> (p: String)
        requires
            self@.1 < u32::MAX,
        ensures
            p@ == part_name(self@.0, self@.1 + 1),
    {
        part_path(self.base.as_str(), self.count + 1)
    }

    /// Records whether the candidate is a file; the search goes on exactly
    /// while parts are found.
    pub fn after_probe(&mut self, is_file: bool) -> (more: bool)
        requires
            is_file ==> old(self)@.1 + 1 < u32::MAX,
        ensures
            more == is_file,
            is_file ==> final(self)@ == (old(self)@.0, old(self)@.1 + 1),
            !is_file ==> final(self)@ == old(self)@,
    {
        if is_file {
            self.count = self.count + 1;
        }
        is_file
    }

    /// The paths of the parts found, in order.
    pub fn parts(&self) -> (v: Vec<String>)
        ensures
            v@.len() == self@.1,
            forall|i: int| 0 <= i < v@.len() ==> #[trigger] v@[i]@ == part_name(self@.0, (i + 1) as nat),
    {
        let mut v: Vec<String> = Vec::new();
        let mut i: u32 = 0;
        while i < self.count
            invariant
                i <= self@.1,
                v@.len() == i,
                forall|k: int| 0 <= k < v@.len() ==> #[trigger] v@[k]@ == part_name(self@.0, (k + 1) as nat),
            decreases self@.1 - i,
        {
            v.push(part_path(self.base.as_str(), i + 1));
            i = i + 1;
        }
        v
    }
}

/// Merging needs at least one part; the error names the path looked for.
pub fn check_parts_found(count: usize, base: &str) -> (r: Result<(), String>)
    ensures
        count == 0 <==> r is Err,
        r matches Err(m) ==> m@ == "No parts found for: "@ + base@,
{
    if count == 0 {
        let mut m = String::new();
        push_str(&mut m, "No parts found for: ");
        push_str(&mut m, base);
        assert(m@ =~= "No parts found for: "@ + base@);
        Err(m)
    } else {
        Ok(())
    }
}

/// The summary of a merge of `parts` parts into `out_path`, `total` bytes.
pub open spec fn merge_message(parts: nat, out_path: Seq<char>, total: nat) -> Seq<char> {
    decimal(parts) + " part(s)  ->  "@ + out_path + "  ("@ + size_label(total) + ")"@
}

/// Reports a merge of `parts` parts into `out_path`, `total` bytes in all.
pub fn merge_result(parts: usize, out_path: String, total: u64) -> (r: PathResult)
    ensures
        r.message@ == merge_message(parts as nat, out_path@, total as nat),
        r.outputs@.len() == 1,
        r.outputs@[0]@ == out_path@,
{
    let mut m = String::new();
    push_decimal(&mut m, parts as u128);
    push_str(&mut m, " part(s)  ->  ");
    push_str(&mut m, out_path.as_str());
    push_str(&mut m, "  (");
    let label = fsize(total);
    push_str(&mut m, label.as_str());
    push_str(&mut m, ")");
    assert(m@ =~= merge_message(parts as nat, out_path@, total as nat));
    let mut outputs = Vec::new();
    outputs.push(out_path);
    PathResult { message: m, outputs }
}

/// The name of any part numbered up to 9999 gives back the name of the file
/// it was split from: merging recovers what splitting started from.
pub proof fn lemma_part_base_of_part_name(name: Seq<char>, index: nat)
    requires
        index <= 9999,
    ensures
        part_base_outcome(part_name(name, index)) == Ok::<_, Seq<char>>(name),
{
    let p = part_name(name, index);
    let z = zero_padded(index, 4);
    lemma_decimal_len_small(index);
    lemma_decimal_digits(index);
    assert(z.len() == 4);
    assert forall|i: int| 0 <= i < 4 implies is_ascii_digit(#[trigger] z[i]) by {
        if decimal(index).len() < 4 {
            let k = 4 - decimal(index).len();
            if i >= k {
                assert(z[i] == decimal(index)[i - k]);
            }
        }
    }
    let n = name.len() as int;
    assert forall|j: int| n < j < p.len() implies p[j] != '.' by {
        assert(p[j] == z[j - n - 1]);
        assert(is_ascii_digit(z[j - n - 1]));
    }
    assert(p[n] == '.');
    lemma_last_index(p, '.', n);
    assert(p.subrange(n + 1, p.len() as int) =~= z);
    assert(p.subrange(0, n) =~= name);
}

/// Different part numbers give different part names, so no part of a split
/// overwrites another.
pub proof fn lemma_part_names_distinct(path: Seq<char>, i: nat, j: nat)
    requires
        i != j,
    ensures
        part_name(path, i) != part_name(path, j),
{
    lemma_zero_padded_value(i, 4);
    lemma_zero_padded_value(j, 4);
    if part_name(path, i) == part_name(path, j) {
        let n = path.len() + 1int;
        assert(part_name(path, i).subrange(n, part_name(path, i).len() as int) =~= zero_padded(i, 4));
        assert(part_name(path, j).subrange(n, part_name(path, j).len() as int) =~= zero_padded(j, 4));
    }
}


/// A merge must start from a part that is a file.
pub fn check_merge_source(is_file: bool) -> (r: Result<(), String>)
    ensures
        is_file <==> r is Ok,
        r matches Err(m) ==> m@ == "Select a valid part file."@,
{
    if is_file {
        Ok(())
    } else {
        let mut m = String::new();
        push_str(&mut m, "Select a valid part file.");
        assert(m@ =~= "Select a valid part file."@);
        Err(m)
    }
}

/// A split must start from a file.
pub fn check_split_source(is_file: bool) -> (r: Result<(), String>)
    ensures
        is_file <==> r is Ok,
        r matches Err(m) ==> m@ == "Select a valid file."@,
{
    if is_file {
        Ok(())
    } else {
        let mut m = String::new();
        push_str(&mut m, "Select a valid file.");
        assert(m@ =~= "Select a valid file."@);
        Err(m)
    }
}


/// The characters of a zero-padded numeral are digits.
proof fn lemma_zero_padded_digits(index: nat)
    ensures
        forall|i: int|
            0 <= i < zero_padded(index, 4).len() ==> is_ascii_digit(#[trigger] zero_padded(index, 4)[i]),
{
    lemma_decimal_digits(index);
    let z = zero_padded(index, 4);
    assert forall|i: int| 0 <= i < z.len() implies is_ascii_digit(#[trigger] z[i]) by {
        if decimal(index).len() < 4 {
            let k = 4 - decimal(index).len();
            if i >= k {
                assert(z[i] == decimal(index)[i - k]);
            }
        }
    }
}

/// Splitting a file at a path with folders and merging from its first part
/// agree: the part's documented file name is the file's name with the part
/// suffix, and merging from it recovers the file's name.
pub proof fn lemma_merge_base_of_split_part(path: Seq<char>, index: nat)
    requires
        documented_file_name(path) matches Some(Some(n)),
        1 <= index <= 9999,
    ensures
        documented_file_name(part_name(path, index)) == Some(
            Some(part_name(documented_file_name(path).unwrap().unwrap(), index)),
        ),
        merge_base_outcome(documented_file_name(part_name(path, index)).unwrap())
            == Ok::<_, Seq<char>>(documented_file_name(path).unwrap().unwrap()),
{
    let n = documented_file_name(path).unwrap().unwrap();
    let q = part_name(path, index);
    let z = zero_padded(index, 4);
    lemma_zero_padded_digits(index);
    lemma_decimal_len_small(index);
    assert(z.len() >= 1);
    assert forall|j: int| path.len() <= j < q.len() implies q[j] != '/' && q[j] != '\\' && q[j]
        != ':' by {
        if j > path.len() {
            assert(q[j] == z[j - path.len() - 1]);
            assert(is_ascii_digit(z[j - path.len() - 1]));
        }
    }
    lemma_last_index_facts(path, '/');
    match last_index(path, '/') {
        Some(k) => {
            lemma_last_index(q, '/', k);
            assert(q.subrange(k + 1, q.len() as int) =~= part_name(path.subrange(
                k + 1,
                path.len() as int,
            ), index));
        },
        None => {
            lemma_last_index_none(q, '/');
        },
    }
    let m = part_name(n, index);
    assert(after_last_slash(q) == m);
    assert(path.len() >= 1);
    assert(!starts_with_two_separators(q)) by {
        assert(q[0] == path[0]);
        if path.len() >= 2 {
            assert(q[1] == path[1]);
        } else {
            assert(q[1] == '.');
        }
    }
    assert(m.len() > 2);
    assert(m != seq!['.', '.']);
    assert(m != seq!['.']);
    assert(q.len() > 2);
    assert(q != seq!['/']);
    assert(q != seq!['.']);
    assert forall|i: int| 0 <= i < m.len() implies m[i] != '\\' by {
        if i >= n.len() {
            assert(m[i] == q[path.len() + (i - n.len())]);
        }
    }
    assert(is_plain_last_component(q, m)) by {
        if m == q {
            assert(n.len() == path.len());
            if n.len() >= 2 {
                assert(m[1] == n[1]);
            } else {
                assert(m[1] == '.');
            }
        }
    }
    lemma_part_base_of_part_name(n, index);
}


/// The split report names the file, then gives the number of parts written
/// as its decimal numeral, then the chunk size's label: for every count,
/// `<name>  ->  <d> part(s)  @ <label>` with `d` the numeral of `parts`.
pub proof fn lemma_split_report_counts_parts(name: Seq<char>, parts: nat, chunk: nat)
    ensures
        exists|d: Seq<char>|
            #[trigger] denotes(d, parts) && split_message(name, parts, chunk) == name + "  ->  "@ + d
                + " part(s)  @ "@ + size_label(chunk),
{
    lemma_decimal_denotes(parts);
}

/// The merge report gives the number of parts as its decimal numeral, the
/// merged path, and the size label of the whole number of bytes merged: for
/// every count and total, `<d> part(s)  ->  <path>  (<label of total>)`.
pub proof fn lemma_merge_report_counts_parts_and_bytes(parts: nat, out_path: Seq<char>, total: nat)
    ensures
        exists|d: Seq<char>|
            #[trigger] denotes(d, parts) && merge_message(parts, out_path, total) == d
                + " part(s)  ->  "@ + out_path + "  ("@ + size_label(total) + ")"@,
{
    lemma_decimal_denotes(parts);
}


/// The units scale by 1024: a size in `KB` is 1024 times the same size in
/// `Bytes`, and in `MB` 1024 times that in `KB`; a size in `Bytes` is the
/// size itself.
pub proof fn lemma_chunk_units(size: nat)
    requires
        size >= 1,
    ensures
        chunk_outcome(size, "Bytes"@) == Ok::<nat, Seq<char>>(size),
        chunk_outcome(size, "KB"@) == Ok::<nat, Seq<char>>(1024 * chunk_outcome(size, "Bytes"@)->Ok_0),
        chunk_outcome(size, "MB"@) == Ok::<nat, Seq<char>>(1024 * chunk_outcome(size, "KB"@)->Ok_0),
{
    reveal_strlit("Bytes");
    reveal_strlit("KB");
    reveal_strlit("MB");
    assert("KB"@[0] != "MB"@[0]);
    assert("Bytes"@.len() != "MB"@.len());
    assert("Bytes"@.len() != "KB"@.len());
    assert(size * 1048576 == 1024 * (1024 * size)) by (nonlinear_arith);
}

} // verus!
