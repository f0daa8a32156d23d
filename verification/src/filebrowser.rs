//! Browsing directories: what is listed, in which order, and how paths that
//! were typed in are read.

use vstd::prelude::*;
use vstd::string::StringExecFns;

use crate::paths::{
    adjoins, containing, ends_in, extension_of_name, is_absolute, join_path, lemma_adjoined_end,
    name_extension, option_text, parent_of, prefixed, reads_parent, relative, rooted, tidy_path,
    verbatim,
};
use crate::search::index_views;
use crate::text::{
    ascii, chars_of, contains, contains_chars, decimal, decimal_of, lemma_line_end, line_end, lower,
    lowered, part_of, same, string_of, to_lowered, trim, trim_chars, trimmed,
};
use crate::time::{pad, padded};

verus! {

/// An entry of a directory.
#[derive(Debug, Clone, PartialEq, Eq)]
pub struct Entry {
    pub name: String,
    pub path: String,
    pub is_dir: bool,
    /// Size in bytes; 0 for directories.
    pub size: u64,
}

/// The text in lower case, by the Unicode tables.
pub uninterp spec fn unicode_lower(s: Seq<char>) -> Seq<char>;

/// Every character is in the ASCII range.
pub open spec fn all_ascii(s: Seq<char>) -> bool {
    forall|i: int| 0 <= i < s.len() ==> ascii(#[trigger] s[i])
}

/// `str::to_lowercase`: depends on the text alone, and lowers the letters of a
/// text in ASCII. It does so behind a full stop as well, whatever stands before
/// that: the lower case of an ASCII letter does not depend on its neighbours.
pub assume_specification[ str::to_lowercase ](s: &str) -> (r: String)
    ensures
        r@ == unicode_lower(s@),
        all_ascii(s@) ==> r@ == lowered(s@),
        all_ascii(s@) ==> forall|before: Seq<char>|
            ends_in(#[trigger] unicode_lower(before + "."@ + s@), "."@ + r@),
;

/// The text in upper case, by the Unicode tables.
pub uninterp spec fn unicode_upper(s: Seq<char>) -> Seq<char>;

/// An ASCII letter in upper case, any other character as it is.
pub open spec fn upper(c: char) -> char {
    if 'a' <= c <= 'z' {
        (c as u32 - 32) as char
    } else {
        c
    }
}

/// `str::to_uppercase`: depends on the text alone, and raises the letters of a
/// text in ASCII.
pub assume_specification[ str::to_uppercase ](s: &str) -> (r: String)
    ensures
        r@ == unicode_upper(s@),
        all_ascii(s@) ==> r@ == s@.map_values(|c: char| upper(c)),
;

/// What is shown as the kind of an entry.
pub open spec fn kind_text(entry: Entry) -> Seq<char> {
    if entry.is_dir {
        "文件夹"@
    } else {
        match name_extension(entry.name@) {
            Some(ext) => if ext.len() > 0 {
                unicode_upper(ext)
            } else {
                "文件"@
            },
            None => "文件"@,
        }
    }
}

impl Entry {
    /// The kind as it is shown: the extension in upper case where there is one.
    pub fn kind_label(&self) -> (s: String)
        ensures
            s@ == kind_text(*self),
    {
        if self.is_dir {
            return "文件夹".to_owned();
        }
        match extension_of_name(self.name.as_str()) {
            Some(ext) => if ext.as_str().is_empty() {
                "文件".to_owned()
            } else {
                ext.as_str().to_uppercase()
            },
            None => "文件".to_owned(),
        }
    }

    /// The size as it is shown; directories have none.
    pub fn size_label(&self) -> (s: String)
        ensures
            s@ == if self.is_dir {
                "—"@
            } else {
                size_text(self.size)
            },
    {
        if self.is_dir {
            "—".to_owned()
        } else {
            format_size(self.size)
        }
    }
}

/// The first text comes before the second, comparing characters from the
/// `i`-th on.
pub open spec fn sorts_before_from(a: Seq<char>, b: Seq<char>, i: int) -> bool
    decreases b.len() - i,
{
    if i < 0 || i >= b.len() {
        false
    } else if i >= a.len() {
        true
    } else if a[i] != b[i] {
        a[i] < b[i]
    } else {
        sorts_before_from(a, b, i + 1)
    }
}

/// The first text comes before the second in the order of code points.
pub open spec fn sorts_before(a: Seq<char>, b: Seq<char>) -> bool {
    sorts_before_from(a, b, 0)
}

fn comes_before(a: &Vec<char>, b: &Vec<char>) -> (r: bool)
    ensures
        r == sorts_before(a@, b@),
{
    let mut i: usize = 0;
    while i < b.len()
        invariant
            i <= b@.len(),
            sorts_before_from(a@, b@, i as int) == sorts_before(a@, b@),
        decreases b@.len() - i,
    {
        if i >= a.len() {
            return true;
        }
        if a[i] != b[i] {
            return a[i] < b[i];
        }
        i += 1;
    }
    false
}

proof fn lemma_sorts(a: Seq<char>, b: Seq<char>, c: Seq<char>, i: int)
    requires
        0 <= i,
        i <= a.len(),
        i <= b.len(),
        i <= c.len(),
        forall|k: int| 0 <= k < i ==> a[k] == b[k] && b[k] == c[k],
    ensures
        !sorts_before_from(a, a, i),
        sorts_before_from(a, b, i) ==> !sorts_before_from(b, a, i),
        !sorts_before_from(a, b, i) && !sorts_before_from(b, a, i) ==> a == b,
        sorts_before_from(a, b, i) && sorts_before_from(b, c, i) ==> sorts_before_from(a, c, i),
    decreases a.len() + b.len() + c.len() - i,
{
    lemma_not_before_itself(a, i);
    lemma_sorts_two(a, b, i);
    if i < a.len() && i < b.len() && i < c.len() && a[i] == b[i] && b[i] == c[i] {
        lemma_sorts(a, b, c, i + 1);
    }
}

proof fn lemma_not_before_itself(a: Seq<char>, i: int)
    requires
        0 <= i <= a.len(),
    ensures
        !sorts_before_from(a, a, i),
    decreases a.len() - i,
{
    if i < a.len() {
        lemma_not_before_itself(a, i + 1);
    }
}

proof fn lemma_sorts_two(a: Seq<char>, b: Seq<char>, i: int)
    requires
        0 <= i <= a.len(),
        i <= b.len(),
        forall|k: int| 0 <= k < i ==> a[k] == b[k],
    ensures
        sorts_before_from(a, b, i) ==> !sorts_before_from(b, a, i),
        !sorts_before_from(a, b, i) && !sorts_before_from(b, a, i) ==> a == b,
    decreases a.len() - i,
{
    if i < a.len() && i < b.len() {
        if a[i] == b[i] {
            lemma_sorts_two(a, b, i + 1);
        }
    } else if i >= a.len() && i >= b.len() {
        assert(a =~= b);
    }
}

/// What entries are ordered by.
pub struct SortKey {
    pub is_dir: bool,
    pub lower: Seq<char>,
    pub name: Seq<char>,
}

/// What an entry is ordered by.
pub open spec fn sort_key(entry: Entry) -> SortKey {
    SortKey { is_dir: entry.is_dir, lower: unicode_lower(entry.name@), name: entry.name@ }
}

/// Directories come first; then the names decide without regard to case, and
/// with it where they are the same otherwise.
pub open spec fn key_before(a: SortKey, b: SortKey) -> bool {
    if a.is_dir != b.is_dir {
        a.is_dir
    } else if a.lower != b.lower {
        sorts_before(a.lower, b.lower)
    } else {
        sorts_before(a.name, b.name)
    }
}

proof fn lemma_keys(a: SortKey, b: SortKey, c: SortKey)
    ensures
        !key_before(a, a),
        key_before(a, b) ==> !key_before(b, a),
        key_before(a, b) && key_before(b, c) ==> key_before(a, c),
        !key_before(a, b) && !key_before(b, a) ==> a == b,
{
    lemma_sorts(a.lower, b.lower, c.lower, 0);
    lemma_sorts(b.lower, a.lower, c.lower, 0);
    lemma_sorts(a.lower, c.lower, b.lower, 0);
    lemma_sorts(a.name, b.name, c.name, 0);
    lemma_sorts(b.name, a.name, c.name, 0);
}

/// The key in the representation that is compared.
struct Key {
    is_dir: bool,
    lower: Vec<char>,
    name: Vec<char>,
}

spec fn key_view(key: Key) -> SortKey {
    SortKey { is_dir: key.is_dir, lower: key.lower@, name: key.name@ }
}

fn key_less(a: &Key, b: &Key) -> (r: bool)
    ensures
        r == key_before(key_view(*a), key_view(*b)),
{
    if a.is_dir != b.is_dir {
        a.is_dir
    } else if !crate::text::same_chars(&a.lower, &b.lower) {
        comes_before(&a.lower, &b.lower)
    } else {
        comes_before(&a.name, &b.name)
    }
}

/// The indices, each once, in an order in which earlier keys come first and
/// entries with the same key keep their order.
pub open spec fn sorting(entries: Seq<Entry>, order: Seq<int>) -> bool {
    &&& order.len() == entries.len()
    &&& order.no_duplicates()
    &&& forall|k: int| 0 <= k < order.len() ==> 0 <= #[trigger] order[k] < entries.len()
    &&& forall|j: int, k: int|
        0 <= j < k < order.len() ==> {
            let a = sort_key(entries[#[trigger] order[j]]);
            let b = sort_key(entries[#[trigger] order[k]]);
            key_before(a, b) || (a == b && order[j] < order[k])
        }
}

/// The entries in the order of the indices.
pub open spec fn arranged(entries: Seq<Entry>, order: Seq<int>) -> Seq<Entry> {
    order.map_values(|i: int| entries[i])
}

/// Sorts the entries of a directory: directories first, then by name without
/// regard to case; names that differ in case alone by their characters.
pub fn sort_entries(entries: &mut Vec<Entry>)
    ensures
        exists|order: Seq<int>|
            #[trigger] sorting(old(entries)@, order) && final(entries)@ == arranged(
                old(entries)@,
                order,
            ),
{
    let ghost all = entries@;
    let total = entries.len();
    let mut keys: Vec<Key> = Vec::new();
    let mut i: usize = 0;
    while i < total
        invariant
            i <= total,
            entries@ == all,
            total == all.len(),
            keys@.len() == i,
            forall|k: int| 0 <= k < i ==> key_view(#[trigger] keys@[k]) == sort_key(all[k]),
        decreases total - i,
    {
        let name = entries[i].name.as_str();
        let small = name.to_lowercase();
        keys.push(
            Key {
                is_dir: entries[i].is_dir,
                lower: chars_of(small.as_str()),
                name: chars_of(name),
            },
        );
        i += 1;
    }
    let order = sorted_indices(&keys);
    proof {
        let o = index_views(order@);
        assert forall|j: int, k: int| 0 <= j < k < o.len() implies {
            let a = sort_key(all[#[trigger] o[j]]);
            let b = sort_key(all[#[trigger] o[k]]);
            key_before(a, b) || (a == b && o[j] < o[k])
        } by {
            assert(o[j] == order@[j] && o[k] == order@[k]);
            assert(key_view(keys@[order@[j] as int]) == sort_key(all[order@[j] as int]));
            assert(key_view(keys@[order@[k] as int]) == sort_key(all[order@[k] as int]));
        }
        assert(o.no_duplicates()) by {
            assert forall|j: int, k: int| 0 <= j < o.len() && 0 <= k < o.len() && j != k implies o[j]
                != o[k] by {
                assert(order@[j] != order@[k]);
            }
        }
        assert(sorting(all, o));
    }
    let mut pool: Vec<Option<Entry>> = Vec::new();
    while entries.len() > 0
        invariant
            entries@.len() + pool@.len() == all.len(),
            entries@ == all.take(entries@.len() as int),
            forall|k: int|
                0 <= k < pool@.len() ==> #[trigger] pool@[k] == Some(all[all.len() - 1 - k]),
        decreases entries@.len(),
    {
        let ghost n = entries@.len();
        match entries.pop() {
            Some(entry) => {
                assert(entry == all[n - 1]);
                pool.push(Some(entry));
            },
            None => {},
        }
    }
    let mut i: usize = 0;
    assert(entries@ =~= arranged(all, index_views(order@).take(0)));
    while i < order.len()
        invariant
            i <= order@.len(),
            total == pool@.len() == all.len(),
            order@.no_duplicates(),
            forall|k: int| 0 <= k < order@.len() ==> #[trigger] order@[k] < total,
            forall|k: int|
                i <= k < order@.len() ==> #[trigger] pool@[total - 1 - order@[k]] == Some(
                    all[order@[k] as int],
                ),
            entries@ == arranged(all, index_views(order@).take(i as int)),
        decreases order@.len() - i,
    {
        let k = order[i];
        let ghost slots = pool@;
        let slot = total - 1 - k;
        let mut taken: Option<Entry> = None;
        assert(pool@[total - 1 - order@[i as int]] == Some(all[order@[i as int] as int]));
        core::mem::swap(&mut taken, &mut pool[slot]);
        match taken {
            Some(entry) => {
                entries.push(entry);
                assert(index_views(order@).take(i + 1) =~= index_views(order@).take(i as int).push(
                    k as int,
                ));
                assert(entries@ =~= arranged(all, index_views(order@).take(i + 1)));
            },
            None => {
                assert(false);
            },
        }
        i += 1;
        assert forall|m: int| i <= m < order@.len() implies #[trigger] pool@[total - 1 - order@[m]]
            == Some(all[order@[m] as int]) by {
            assert(order@[m] != order@[i - 1]);
            assert(slots[total - 1 - order@[m]] == Some(all[order@[m] as int]));
        }
    }
    assert(index_views(order@).take(i as int) =~= index_views(order@));
}

/// The keys at these indices rise; equal ones keep their order.
spec fn rises(keys: Seq<Key>, order: Seq<usize>) -> bool {
    forall|j: int, k: int|
        0 <= j < k < order.len() ==> {
            let a = key_view(keys[#[trigger] order[j] as int]);
            let b = key_view(keys[#[trigger] order[k] as int]);
            key_before(a, b) || (a == b && order[j] < order[k])
        }
}

fn sorted_indices(keys: &Vec<Key>) -> (order: Vec<usize>)
    ensures
        order@.len() == keys@.len(),
        order@.no_duplicates(),
        forall|k: int| 0 <= k < order@.len() ==> #[trigger] order@[k] < keys@.len(),
        rises(keys@, order@),
{
    let mut order: Vec<usize> = Vec::new();
    let mut i: usize = 0;
    while i < keys.len()
        invariant
            i <= keys@.len(),
            order@.len() == i,
            order@.no_duplicates(),
            forall|k: int| 0 <= k < order@.len() ==> #[trigger] order@[k] < i,
            rises(keys@, order@),
        decreases keys@.len() - i,
    {
        let ghost new = key_view(keys@[i as int]);
        let ghost list = order@;
        let mut low: usize = 0;
        let mut high: usize = order.len();
        while low < high
            invariant
                i < keys@.len(),
                new == key_view(keys@[i as int]),
                list == order@,
                order@.len() == i,
                low <= high <= order@.len(),
                rises(keys@, list),
                forall|k: int| 0 <= k < list.len() ==> #[trigger] list[k] < i,
                forall|k: int|
                    0 <= k < low ==> !key_before(new, key_view(keys@[#[trigger] list[k] as int])),
                forall|k: int|
                    high <= k < list.len() ==> key_before(
                        new,
                        key_view(keys@[#[trigger] list[k] as int]),
                    ),
            decreases high - low,
        {
            let mid = low + (high - low) / 2;
            let at = order[mid];
            if key_less(&keys[i], &keys[at]) {
                assert forall|k: int| mid <= k < list.len() implies key_before(
                    new,
                    key_view(keys@[#[trigger] list[k] as int]),
                ) by {
                    if mid < k {
                        lemma_keys(
                            new,
                            key_view(keys@[list[mid as int] as int]),
                            key_view(keys@[list[k] as int]),
                        );
                    }
                }
                high = mid;
            } else {
                assert forall|k: int| 0 <= k < mid + 1 implies !key_before(
                    new,
                    key_view(keys@[#[trigger] list[k] as int]),
                ) by {
                    if k < mid {
                        let a = key_view(keys@[list[k] as int]);
                        let b = key_view(keys@[list[mid as int] as int]);
                        lemma_keys(new, a, b);
                    }
                }
                low = mid + 1;
            }
        }
        order.insert(low, i);
        proof {
            assert(order@ == list.insert(low as int, i));
            assert forall|j: int, k: int| 0 <= j < k < order@.len() implies {
                let a = key_view(keys@[#[trigger] order@[j] as int]);
                let b = key_view(keys@[#[trigger] order@[k] as int]);
                key_before(a, b) || (a == b && order@[j] < order@[k])
            } by {
                if j < low && k == low {
                    let a = key_view(keys@[list[j] as int]);
                    assert(order@[j] == list[j]);
                    assert(!key_before(new, a));
                    lemma_keys(a, new, a);
                } else if j == low {
                    assert(order@[k] == list[k - 1]);
                } else {
                    let jj = if j < low {
                        j
                    } else {
                        j - 1
                    };
                    let kk = if k < low {
                        k
                    } else {
                        k - 1
                    };
                    assert(order@[j] == list[jj]);
                    assert(order@[k] == list[kk]);
                }
            }
            assert forall|k: int| 0 <= k < order@.len() implies #[trigger] order@[k] < i + 1 by {
                if k < low {
                    assert(order@[k] == list[k]);
                } else if k > low {
                    assert(order@[k] == list[k - 1]);
                }
            }
            assert(order@.no_duplicates()) by {
                assert forall|j: int, k: int|
                    0 <= j < order@.len() && 0 <= k < order@.len() && j != k implies order@[j]
                    != order@[k] by {
                    let jj = if j < low {
                        j
                    } else {
                        j - 1
                    };
                    let kk = if k < low {
                        k
                    } else {
                        k - 1
                    };
                    if j != low {
                        assert(order@[j] == list[jj]);
                    }
                    if k != low {
                        assert(order@[k] == list[kk]);
                    }
                }
            }
        }
        i += 1;
    }
    order
}

/// Distance between the numbers that 53 significant bits can hold, around `n`.
pub open spec fn spacing(n: nat) -> nat
    decreases n,
{
    if n < 0x20_0000_0000_0000 {
        1
    } else {
        2 * spacing(n / 2)
    }
}

/// The whole number next to a fraction; halfway between two, the even one.
pub open spec fn half_even(a: nat, b: nat) -> nat {
    let q = a / b;
    let r = a % b;
    if 2 * r < b || (2 * r == b && q % 2 == 0) {
        q
    } else {
        q + 1
    }
}

/// The number of 53 significant bits next to `n`.
pub open spec fn significant(n: nat) -> nat {
    half_even(n, spacing(n)) * spacing(n)
}

/// Bytes of the unit that a size is shown in.
pub open spec fn unit_size(v: nat) -> nat {
    if v < 1024 {
        1
    } else if v < 1_048_576 {
        1024
    } else if v < 1_073_741_824 {
        1_048_576
    } else if v < 1_099_511_627_776 {
        1_073_741_824
    } else {
        1_099_511_627_776
    }
}

/// The name of the unit that a size is shown in.
pub open spec fn unit_name(v: nat) -> Seq<char> {
    if v < 1024 {
        "B"@
    } else if v < 1_048_576 {
        "KB"@
    } else if v < 1_073_741_824 {
        "MB"@
    } else if v < 1_099_511_627_776 {
        "GB"@
    } else {
        "TB"@
    }
}

/// A size as it is shown: whole bytes below 1024; otherwise three significant
/// digits, or as many as there are before the point.
pub open spec fn size_text(bytes: u64) -> Seq<char> {
    let v = significant(bytes as nat);
    let unit = unit_size(v);
    if v < 1024 {
        decimal(bytes as nat) + " B"@
    } else if v >= 100 * unit {
        decimal(half_even(v, unit)) + " "@ + unit_name(v)
    } else if v >= 10 * unit {
        let tenths = half_even(v * 10, unit);
        decimal(tenths / 10) + "."@ + decimal(tenths % 10) + " "@ + unit_name(v)
    } else {
        let hundredths = half_even(v * 100, unit);
        decimal(hundredths / 100) + "."@ + padded(decimal(hundredths % 100), 2) + " "@ + unit_name(
            v,
        )
    }
}

proof fn lemma_spacing(n: nat)
    ensures
        1 <= spacing(n),
        n < 0x1_0000_0000_0000_0000 ==> spacing(n) <= 2048,
    decreases n,
{
    if n >= 0x20_0000_0000_0000 {
        lemma_spacing(n / 2);
        reveal_with_fuel(spacing, 13);
    }
}

fn nearest_whole(a: u128, b: u128) -> (q: u128)
    requires
        0 < b < 0x1_0000_0000_0000_0000,
        a < 0x1000_0000_0000_0000_0000_0000_0000_0000,
    ensures
        q == half_even(a as nat, b as nat),
        q <= a + 1,
{
    let q = a / b;
    let r = a % b;
    assert(q <= a) by (nonlinear_arith)
        requires
            q == a as int / b as int,
            b > 0,
            a >= 0,
    ;
    if 2 * r < b || (2 * r == b && q % 2 == 0) {
        q
    } else {
        q + 1
    }
}

fn spacing_of(n: u64) -> (d: u64)
    ensures
        d == spacing(n as nat),
        1 <= d <= 2048,
    decreases n,
{
    proof {
        lemma_spacing(n as nat);
    }
    if n < 0x20_0000_0000_0000 {
        1
    } else {
        proof {
            lemma_spacing((n / 2) as nat);
        }
        2 * spacing_of(n / 2)
    }
}

fn significant_of(n: u64) -> (v: u128)
    ensures
        v == significant(n as nat),
        v < 0x1_0000_0000_0000_0000_0000,
{
    let d = spacing_of(n) as u128;
    let q = nearest_whole(n as u128, d);
    assert(q * d <= 0x1_0000_0000_0000_0000 * 2048) by (nonlinear_arith)
        requires
            q <= 0x1_0000_0000_0000_0000,
            d <= 2048,
    ;
    q * d
}

/// A size in the unit that suits it.
pub fn format_size(bytes: u64) -> (s: String)
    ensures
        s@ == size_text(bytes),
{
    let v = significant_of(bytes);
    if v < 1024 {
        return decimal_of(bytes).concat(" B");
    }
    let (unit, name): (u128, &'static str) = if v < 1_048_576 {
        (1024, "KB")
    } else if v < 1_073_741_824 {
        (1_048_576, "MB")
    } else if v < 1_099_511_627_776 {
        (1_073_741_824, "GB")
    } else {
        (1_099_511_627_776, "TB")
    };
    let mut s = if v >= 100 * unit {
        let whole = nearest_whole(v, unit);
        proof {
            lemma_quotient(v as nat, unit as nat);
        }
        decimal_of(whole as u64)
    } else if v >= 10 * unit {
        let tenths = nearest_whole(v * 10, unit);
        proof {
            lemma_quotient((v * 10) as nat, unit as nat);
        }
        let digit = decimal_of((tenths % 10) as u64);
        decimal_of((tenths / 10) as u64).concat(".").concat(digit.as_str())
    } else {
        let hundredths = nearest_whole(v * 100, unit);
        proof {
            lemma_quotient((v * 100) as nat, unit as nat);
        }
        let digits = pad((hundredths % 100) as u64, 2);
        decimal_of((hundredths / 100) as u64).concat(".").concat(digits.as_str())
    };
    s.append(" ");
    s.append(name);
    s
}

proof fn lemma_quotient(a: nat, b: nat)
    requires
        b >= 1024,
        a < 0x1_0000_0000_0000_0000_0000 * 100,
        a < 1000 * b || b == 1_099_511_627_776 || a < 0x1_0000_0000_0000_0000,
    ensures
        half_even(a, b) < 0x1_0000_0000_0000_0000,
{
    assert(a / b <= a / 1024) by (nonlinear_arith)
        requires
            b >= 1024,
            a >= 0,
    ;
    if a < 1000 * b {
        assert(a / b < 1000) by (nonlinear_arith)
            requires
                a < 1000 * b,
                b > 0,
                a >= 0,
        ;
    } else if b == 1_099_511_627_776 {
        assert(a / 1_099_511_627_776 < 0x1_0000_0000_0000_0000 - 1);
    }
}

/// What to say of a directory that could not be read.
#[derive(Debug, Clone, Copy, PartialEq, Eq, Structural)]
pub enum ReadFailure {
    NotFound,
    PermissionDenied,
    Other,
}

/// What the user is told of a directory that could not be read.
pub fn read_error(dir: &str, kind: ReadFailure, reason: &str) -> (s: String)
    ensures
        s@ == match kind {
            ReadFailure::NotFound => "目录不存在: "@ + dir@,
            ReadFailure::PermissionDenied => "没有权限访问: "@ + dir@,
            ReadFailure::Other => "无法读取目录 "@ + dir@ + ": "@ + reason@,
        },
{
    match kind {
        ReadFailure::NotFound => "目录不存在: ".to_owned().concat(dir),
        ReadFailure::PermissionDenied => "没有权限访问: ".to_owned().concat(dir),
        ReadFailure::Other => "无法读取目录 ".to_owned().concat(dir).concat(": ").concat(reason),
    }
}

/// The directory that a directory is in; `None` for the root.
pub fn parent_dir(dir: &str) -> (r: Option<String>)
    ensures
        tidy_path(dir@) ==> option_text(r) == if containing(dir@).len() > 0 {
            Some(containing(dir@))
        } else {
            None
        },
        dir@ == "/"@ ==> r is None,
        r is Some ==> 0 < (r->0)@.len() < dir@.len() && dir@.take((r->0)@.len() as int) == (r->0)@,
        exists|parent: Option<Seq<char>>| #[trigger]
            reads_parent(dir@, parent) && option_text(r) == if parent is Some && (parent->0).len()
                > 0 {
                parent
            } else {
                None
            },
{
    let parent = parent_of(dir);
    assert(reads_parent(dir@, option_text(parent)));
    match parent {
        Some(parent) => if parent.as_str().is_empty() {
            None
        } else {
            Some(parent)
        },
        None => None,
    }
}

/// The path that a text in an input field stands for, given whether it is
/// absolute: `~` stands for the home directory, an absolute path for itself, and
/// other paths start from the current one.
pub open spec fn typed_path(
    text: Seq<char>,
    cwd: Seq<char>,
    home: Seq<char>,
    absolute: bool,
    path: Seq<char>,
) -> bool {
    if text == "~"@ {
        path == home
    } else if text.len() >= 2 && text[0] == '~' && text[1] == '/' {
        adjoins(home, text.skip(2), path)
    } else if absolute {
        path == text
    } else {
        adjoins(cwd, text, path)
    }
}

/// The path that a text in an input field stands for, given whether the text is
/// an absolute path.
pub fn expand_path(text: &str, absolute: bool, cwd: &str, home: &str) -> (path: String)
    ensures
        typed_path(trimmed(text@), cwd@, home@, absolute, path@),
{
    let typed = trim(text);
    if same(typed.as_str(), "~") {
        return home.to_owned();
    }
    proof {
        reveal_strlit("~");
    }
    let chars = chars_of(typed.as_str());
    let total = chars.len();
    if total >= 2 && chars[0] == '~' && chars[1] == '/' {
        let rest = string_of(&chars, 2, total);
        assert(rest@ =~= typed@.skip(2));
        return join_path(home, rest.as_str());
    }
    if absolute {
        return typed;
    }
    join_path(cwd, typed.as_str())
}

/// The text starts from the home directory.
pub open spec fn from_home(text: Seq<char>) -> bool {
    text == "~"@ || (text.len() >= 2 && text[0] == '~' && text[1] == '/')
}

/// The path that a text in an input field stands for. The platform tells which
/// texts are absolute paths; whatever it tells, the path ends in the text unless
/// that starts from the home directory. A text that starts with a slash stands for
/// itself, unless the current path names a drive, a machine or a device.
pub fn expand_input_path(text: &str, cwd: &str, home: &str) -> (path: String)
    ensures
        exists|absolute: bool|
            #[trigger] typed_path(trimmed(text@), cwd@, home@, absolute, path@) && (relative(
                trimmed(text@),
            ) ==> !absolute),
        !from_home(trimmed(text@)) && !verbatim(cwd@) ==> ends_in(path@, trimmed(text@)),
        rooted(trimmed(text@)) && !prefixed(cwd@) ==> path@ == trimmed(text@),
{
    let typed = trim(text);
    let absolute = is_absolute(typed.as_str());
    let path = expand_path(text, absolute, cwd, home);
    proof {
        let t = trimmed(text@);
        assert(typed_path(t, cwd@, home@, absolute, path@));
        reveal_strlit("~");
        reveal_strlit("\\\\?\\");
        if verbatim(cwd@) {
            assert(cwd@.subrange(0, 4)[0] == cwd@[0] && cwd@.subrange(0, 4)[1] == cwd@[1]);
            assert(prefixed(cwd@));
        }
        if !from_home(t) && !verbatim(cwd@) {
            if absolute {
                assert(t.skip(0) =~= t);
            } else {
                lemma_adjoined_end(cwd@, t, path@);
            }
        }
    }
    path
}

/// Index of the first equals sign; the length where there is none.
pub open spec fn equals_sign(s: Seq<char>, i: int) -> int
    decreases s.len() - i,
{
    if 0 <= i < s.len() && s[i] != '=' {
        equals_sign(s, i + 1)
    } else {
        i
    }
}

/// Index of the first character that is no quotation mark.
pub open spec fn skip_quotes(s: Seq<char>, i: int) -> int
    decreases s.len() - i,
{
    if 0 <= i < s.len() && s[i] == '"' {
        skip_quotes(s, i + 1)
    } else {
        i
    }
}

/// Index behind the last character before `j` that is no quotation mark, but
/// not before `i`.
pub open spec fn drop_quotes(s: Seq<char>, i: int, j: int) -> int
    decreases j - i,
{
    if i < j && s[j - 1] == '"' {
        drop_quotes(s, i, j - 1)
    } else {
        j
    }
}

/// The text without quotation marks at its ends.
pub open spec fn unquoted(s: Seq<char>) -> Seq<char> {
    let i = skip_quotes(s, 0);
    s.subrange(i, drop_quotes(s, i, s.len() as int))
}

fn unquote(chars: &Vec<char>) -> (r: Vec<char>)
    ensures
        r@ == unquoted(chars@),
{
    let ghost s = chars@;
    let mut i: usize = 0;
    while i < chars.len() && chars[i] == '"'
        invariant
            s == chars@,
            i <= s.len(),
            skip_quotes(s, 0) == skip_quotes(s, i as int),
        decreases s.len() - i,
    {
        i += 1;
    }
    let mut j: usize = chars.len();
    while i < j && chars[j - 1] == '"'
        invariant
            s == chars@,
            i <= j <= s.len(),
            drop_quotes(s, i as int, s.len() as int) == drop_quotes(s, i as int, j as int),
        decreases j,
    {
        j -= 1;
    }
    part_of(chars, i, j)
}

/// A directory of the user as the settings of the desktop give it.
pub enum UserDir {
    /// Below the home directory.
    Home(Seq<char>),
    At(Seq<char>),
}

/// What a line says of a key: nothing, that the directory is disabled, or where
/// it is.
pub open spec fn user_dir_line(line: Seq<char>, key: Seq<char>) -> Option<Option<UserDir>> {
    let eq = equals_sign(line, 0);
    if line.len() == 0 || line[0] == '#' || eq >= line.len() || trimmed(line.subrange(0, eq))
        != key {
        None
    } else {
        let value = unquoted(trimmed(line.subrange(eq + 1, line.len() as int)));
        if value.len() == 0 {
            Some(None)
        } else if crate::text::occurs_at(value, "$HOME/"@, 0) {
            Some(Some(UserDir::Home(value.skip("$HOME/"@.len() as int))))
        } else {
            Some(Some(UserDir::At(value)))
        }
    }
}

/// What the first line at the `i`-th character or behind it that speaks of a
/// key says.
pub open spec fn user_dir_from(s: Seq<char>, i: int, key: Seq<char>) -> Option<UserDir>
    decreases s.len() + 1 - i,
    via user_dir_from_decreases
{
    if i < 0 || i >= s.len() {
        None
    } else {
        let end = line_end(s, i);
        match user_dir_line(trimmed(s.subrange(i, end)), key) {
            Some(answer) => answer,
            None => user_dir_from(s, end + 1, key),
        }
    }
}

#[via_fn]
proof fn user_dir_from_decreases(s: Seq<char>, i: int, key: Seq<char>) {
    if 0 <= i < s.len() {
        lemma_line_end(s, i);
    }
}

/// The path of a directory of the user.
pub open spec fn user_dir_path(dir: Option<UserDir>, home: Seq<char>, path: Option<Seq<char>>) -> bool {
    match dir {
        None => path is None,
        Some(UserDir::At(value)) => path == Some(value),
        Some(UserDir::Home(rest)) => path is Some && adjoins(home, rest, path->0),
    }
}

/// Reads the directory of a key out of the settings of the desktop, which are
/// lines such as `XDG_DESKTOP_DIR="$HOME/桌面"`. An empty value disables it.
pub fn parse_user_dir(content: &str, key: &str, home: &str) -> (r: Option<String>)
    ensures
        user_dir_path(user_dir_from(content@, 0, key@), home@, option_text(r)),
{
    let chars = chars_of(content);
    let ghost s = content@;
    let total = chars.len();
    let mark = chars_of("$HOME/");
    let mut i: usize = 0;
    while i < total
        invariant
            s == chars@,
            s == content@,
            total == s.len(),
            mark@ == "$HOME/"@,
            i <= total,
            user_dir_from(s, i as int, key@) == user_dir_from(s, 0, key@),
        decreases total - i,
    {
        let start = i;
        while i < total && chars[i] != '\n'
            invariant
                s == chars@,
                total == s.len(),
                start <= i <= total,
                line_end(s, start as int) == line_end(s, i as int),
            decreases total - i,
        {
            i += 1;
        }
        let line = trim_chars(&part_of(&chars, start, i));
        let length = line.len();
        let mut eq: usize = 0;
        while eq < length && line[eq] != '='
            invariant
                length == line@.len(),
                eq <= length,
                equals_sign(line@, 0) == equals_sign(line@, eq as int),
            decreases length - eq,
        {
            eq += 1;
        }
        if length > 0 && line[0] != '#' && eq < length {
            let name_chars = trim_chars(&part_of(&line, 0, eq));
            let key_chars = chars_of(key);
            if crate::text::same_chars(&name_chars, &key_chars) {
                let value = unquote(&trim_chars(&part_of(&line, eq + 1, length)));
                if value.len() == 0 {
                    return None;
                }
                if crate::text::stands_at(&value, &mark, 0) {
                    let rest = string_of(&value, mark.len(), value.len());
                    assert(rest@ =~= value@.skip(mark@.len() as int));
                    return Some(join_path(home, rest.as_str()));
                }
                assert(value@.subrange(0, value@.len() as int) =~= value@);
                return Some(string_of(&value, 0, value.len()));
            }
        }
        proof {
            assert(line@ == trimmed(s.subrange(start as int, i as int)));
            assert(user_dir_line(line@, key@) is None);
            assert(user_dir_from(s, start as int, key@) == user_dir_from(s, i + 1, key@));
            assert(i == total ==> user_dir_from(s, i + 1, key@) == user_dir_from(s, i as int, key@));
        }
        if i < total {
            i += 1;
        }
    }
    None
}

/// Whether an entry is hidden: its name starts with a dot.
pub fn is_hidden(name: &str) -> (r: bool)
    ensures
        r == hidden(name@),
{
    let chars = chars_of(name);
    chars.len() > 0 && chars[0] == '.'
}

/// The name starts with a dot.
pub open spec fn hidden(name: Seq<char>) -> bool {
    name.len() > 0 && name[0] == '.'
}

/// The name has the words that were typed in, whatever their case.
pub open spec fn name_has(name: Seq<char>, query: Seq<char>) -> bool {
    trimmed(query).len() == 0 || contains(unicode_lower(name), unicode_lower(trimmed(query)))
}

/// Whether a name has what was typed in, whatever the case; nothing typed in
/// is in every name.
pub fn name_matches(name: &str, query: &str) -> (r: bool)
    ensures
        r == name_has(name@, query@),
{
    let query = trim(query);
    if query.as_str().is_empty() {
        return true;
    }
    let name = name.to_lowercase();
    let query = query.as_str().to_lowercase();
    contains_chars(&chars_of(name.as_str()), &chars_of(query.as_str()))
}

/// The extension of the name is among those given, whatever its case; none
/// given stands for all.
pub open spec fn extension_among(name: Seq<char>, exts: Seq<String>) -> bool {
    exts.len() == 0 || match name_extension(name) {
        Some(ext) => exists|i: int|
            0 <= i < exts.len() && lowered(#[trigger] exts[i]@) == lowered(ext),
        None => false,
    }
}

/// Whether the extension of a name is among those given.
pub fn ext_allowed(name: &str, exts: &Vec<String>) -> (r: bool)
    ensures
        r == extension_among(name@, exts@),
{
    if exts.len() == 0 {
        return true;
    }
    match extension_of_name(name) {
        Some(ext) => {
            let wanted = to_lowered(ext.as_str());
            let mut i: usize = 0;
            while i < exts.len()
                invariant
                    i <= exts@.len(),
                    exts@.len() > 0,
                    name_extension(name@) == Some(ext@),
                    wanted@ == lowered(ext@),
                    forall|k: int|
                        0 <= k < i ==> lowered(#[trigger] exts@[k]@) != lowered(ext@),
                decreases exts@.len() - i,
            {
                if same(to_lowered(exts[i].as_str()).as_str(), wanted.as_str()) {
                    return true;
                }
                i += 1;
            }
            false
        },
        None => false,
    }
}

/// What the entries of a directory are limited to.
pub struct FilterOpts<'a> {
    pub show_hidden: bool,
    /// What the name has to have.
    pub query: &'a str,
    /// The extensions that files may have; none stands for all.
    pub exts: &'a Vec<String>,
}

/// The entry is shown. Extensions are asked of files only.
pub open spec fn entry_shown(
    entry: Entry,
    show_hidden: bool,
    query: Seq<char>,
    exts: Seq<String>,
) -> bool {
    &&& show_hidden || !hidden(entry.name@)
    &&& name_has(entry.name@, query)
    &&& entry.is_dir || extension_among(entry.name@, exts)
}

/// Those of the first `n` entries that are shown.
pub open spec fn shown_entries(
    entries: Seq<Entry>,
    show_hidden: bool,
    query: Seq<char>,
    exts: Seq<String>,
    n: int,
) -> Seq<int>
    decreases n,
{
    if n <= 0 {
        Seq::empty()
    } else if entry_shown(entries[n - 1], show_hidden, query, exts) {
        shown_entries(entries, show_hidden, query, exts, n - 1).push(n - 1)
    } else {
        shown_entries(entries, show_hidden, query, exts, n - 1)
    }
}

/// The indices of the entries that are shown, in their order.
pub fn filter_indices(entries: &Vec<Entry>, opts: &FilterOpts) -> (r: Vec<usize>)
    ensures
        index_views(r@) == shown_entries(
            entries@,
            opts.show_hidden,
            opts.query@,
            opts.exts@,
            entries@.len() as int,
        ),
        forall|k: int| 0 <= k < r@.len() ==> #[trigger] r@[k] < entries@.len(),
{
    let mut r: Vec<usize> = Vec::new();
    let mut i: usize = 0;
    assert(index_views(r@) =~= Seq::empty());
    while i < entries.len()
        invariant
            i <= entries@.len(),
            index_views(r@) == shown_entries(
                entries@,
                opts.show_hidden,
                opts.query@,
                opts.exts@,
                i as int,
            ),
            forall|k: int| 0 <= k < r@.len() ==> #[trigger] r@[k] < i,
        decreases entries@.len() - i,
    {
        let entry = &entries[i];
        if (opts.show_hidden || !is_hidden(entry.name.as_str())) && name_matches(
            entry.name.as_str(),
            opts.query,
        ) && (entry.is_dir || ext_allowed(entry.name.as_str(), opts.exts)) {
            let ghost before = index_views(r@);
            r.push(i);
            assert(index_views(r@) =~= before.push(i as int));
        }
        i += 1;
    }
    r
}

/// The name ends in the extension, whatever its case.
pub open spec fn has_extension(name: Seq<char>, ext: Seq<char>) -> bool {
    let tail = "."@ + unicode_lower(ext);
    let small = unicode_lower(name);
    tail.len() <= small.len() && crate::text::occurs_at(small, tail, small.len() - tail.len())
}

/// The name with the extension, which is added where it is missing.
pub open spec fn with_extension(name: Seq<char>, ext: Seq<char>) -> Seq<char> {
    if name.len() == 0 || ext.len() == 0 || has_extension(name, ext) {
        name
    } else {
        name + "."@ + ext
    }
}

/// Adds an extension to a file name that does not have it. To add it again
/// changes nothing, where it is written in ASCII.
pub fn ensure_extension(name: &str, ext: &str) -> (s: String)
    ensures
        s@ == with_extension(name@, ext@),
        all_ascii(ext@) ==> with_extension(s@, ext@) == s@,
{
    if name.is_empty() || ext.is_empty() {
        return name.to_owned();
    }
    let small = name.to_lowercase();
    let ending = ext.to_lowercase();
    let tail = ".".to_owned().concat(ending.as_str());
    let small_chars = chars_of(small.as_str());
    let tail_chars = chars_of(tail.as_str());
    if tail_chars.len() <= small_chars.len() && crate::text::stands_at(
        &small_chars,
        &tail_chars,
        small_chars.len() - tail_chars.len(),
    ) {
        return name.to_owned();
    }
    let full = name.to_owned().concat(".").concat(ext);
    proof {
        if all_ascii(ext@) {
            let small = unicode_lower(full@);
            let tail = "."@ + unicode_lower(ext@);
            assert(full@ == name@ + "."@ + ext@);
            assert(ends_in(small, tail));
            assert(small.subrange(small.len() - tail.len(), small.len() as int) =~= tail);
        }
    }
    full
}

} // verus!
