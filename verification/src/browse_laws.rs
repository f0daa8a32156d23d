//! What every listing of a directory shows, and in which order; how sizes are shown,
//! and what is typed in.

use vstd::prelude::*;

use crate::entry_laws::lemma_line_stops;
use crate::filebrowser::{
    arranged, entry_shown, equals_sign, extension_among, half_even, has_extension, hidden,
    key_before, name_has, shown_entries, significant, size_text, sort_key, sorting,
    sorts_before_from, spacing, typed_path, unicode_lower, unit_name, unit_size, unquoted,
    user_dir_from, user_dir_line, with_extension, Entry, UserDir,
};
use crate::import_laws::reads;
use crate::line_laws::{blank, law_trimmed, only_feeds, written};
use crate::text::{decimal, lower, lowered, occurs_at, space, trimmed};
use crate::time::padded;
use crate::token_laws::same_letter;

verus! {

/// A text comes before another in a dictionary: at the first place where they differ
/// its character is lower, or it ends there.
pub open spec fn earlier(a: Seq<char>, b: Seq<char>) -> bool {
    exists|p: int| #[trigger] differ_first(a, b, p) && (p == a.len() || (p < b.len() && a[p] < b[p]))
}

/// The texts are the same up to a place, where one of them ends or they differ.
pub open spec fn differ_first(a: Seq<char>, b: Seq<char>, p: int) -> bool {
    &&& 0 <= p <= a.len()
    &&& p <= b.len()
    &&& forall|i: int| 0 <= i < p ==> a[i] == b[i]
    &&& p < a.len() || p < b.len()
    &&& p < a.len() && p < b.len() ==> a[p] != b[p]
}

proof fn lemma_earlier(a: Seq<char>, b: Seq<char>, i: int)
    requires
        0 <= i,
        forall|k: int| 0 <= k < i && k < a.len() && k < b.len() ==> a[k] == b[k],
        i <= a.len() || i <= b.len(),
        i <= b.len() ==> i <= a.len(),
    ensures
        sorts_before_from(a, b, i) ==> earlier(a, b),
    decreases b.len() - i,
{
    if sorts_before_from(a, b, i) {
        if i >= a.len() || a[i] != b[i] {
            assert(differ_first(a, b, i));
        } else {
            lemma_earlier(a, b, i + 1);
        }
    }
}

proof fn lemma_not_both(a: Seq<char>, b: Seq<char>)
    ensures
        !(earlier(a, b) && earlier(b, a)),
{
    if earlier(a, b) && earlier(b, a) {
        let p = choose|p: int| #[trigger]
            differ_first(a, b, p) && (p == a.len() || (p < b.len() && a[p] < b[p]));
        let q = choose|q: int| #[trigger]
            differ_first(b, a, q) && (q == b.len() || (q < a.len() && b[q] < a[q]));
        if p < q {
            assert(b[p] == a[p]);
        } else if q < p {
            assert(a[q] == b[q]);
        }
    }
}

/// A listing has every entry once. Directories come before files; among those, names
/// come in the order of a dictionary whatever their case, and names that differ in
/// case alone in the order of their characters.
pub proof fn law_listings_are_in_order(entries: Seq<Entry>, order: Seq<int>, j: int, k: int)
    requires
        sorting(entries, order),
        0 <= j < k < order.len(),
    ensures
        arranged(entries, order).len() == entries.len(),
        order[j] != order[k],
        ({
            let a = arranged(entries, order)[j];
            let b = arranged(entries, order)[k];
            let small_a = unicode_lower(a.name@);
            let small_b = unicode_lower(b.name@);
            &&& !(b.is_dir && !a.is_dir)
            &&& a.is_dir == b.is_dir ==> !earlier(small_b, small_a)
            &&& a.is_dir == b.is_dir && small_a == small_b ==> !earlier(b.name@, a.name@)
        }),
{
    let x = sort_key(entries[order[j]]);
    let y = sort_key(entries[order[k]]);
    assert(key_before(x, y) || (x == y && order[j] < order[k]));
    assert(arranged(entries, order)[j] == entries[order[j]]);
    assert(arranged(entries, order)[k] == entries[order[k]]);
    lemma_earlier(x.lower, y.lower, 0);
    lemma_earlier(x.name, y.name, 0);
    lemma_not_both(x.lower, y.lower);
    lemma_not_both(x.name, y.name);
    lemma_not_before_itself(x.lower);
    lemma_not_before_itself(x.name);
}

proof fn lemma_not_before_itself(a: Seq<char>)
    ensures
        !earlier(a, a),
{
}

/// The name has one of the extensions behind its last dot, which is not its first
/// character.
pub open spec fn ends_in_extension(name: Seq<char>, ext: Seq<char>) -> bool {
    exists|k: int|
        0 < k < name.len() && #[trigger] name[k] == '.' && !name.skip(k + 1).contains('.') && reads(
            name.skip(k + 1),
            ext,
        )
}

proof fn lemma_extension(name: Seq<char>, i: int)
    requires
        0 <= i <= name.len(),
        !name.skip(i).contains('.'),
    ensures
        ({
            let k = crate::paths::last_dot(name, i);
            &&& -1 <= k < i
            &&& k >= 0 ==> name[k] == '.' && !name.skip(k + 1).contains('.')
            &&& k < 0 ==> !name.contains('.')
        }),
    decreases i,
{
    if i > 0 {
        if name[i - 1] != '.' {
            assert(!name.skip(i - 1).contains('.')) by {
                let more = name.skip(i - 1);
                if more.contains('.') {
                    let m = choose|m: int| 0 <= m < more.len() && more[m] == '.';
                    assert(m > 0);
                    assert(name.skip(i)[m - 1] == '.');
                }
            }
            lemma_extension(name, i - 1);
        }
    } else {
        assert(name.skip(0) =~= name);
    }
}

/// Words are alike when they are the same in lower case.
pub proof fn lemma_lowered_reads(a: Seq<char>, b: Seq<char>)
    ensures
        lowered(a) == lowered(b) <==> reads(b, a),
{
    if lowered(a) == lowered(b) {
        assert(lowered(a).len() == a.len() && lowered(b).len() == b.len());
        assert forall|i: int| 0 <= i < b.len() implies same_letter(#[trigger] b[i], a[i]) by {
            assert(lowered(a)[i] == lower(a[i]) && lowered(b)[i] == lower(b[i]));
            if a[i] != b[i] {
                if 'A' <= a[i] && a[i] <= 'Z' {
                    assert(lower(a[i]) as u32 == a[i] as u32 + 32);
                }
                if 'A' <= b[i] && b[i] <= 'Z' {
                    assert(lower(b[i]) as u32 == b[i] as u32 + 32);
                }
            }
        }
    }
    if reads(b, a) {
        assert forall|i: int| 0 <= i < b.len() implies lowered(a)[i] == lowered(b)[i] by {
            assert(same_letter(b[i], a[i]));
            if a[i] != b[i] {
                if 'A' <= a[i] && a[i] <= 'Z' && b[i] as u32 == a[i] as u32 + 32 {
                    assert(lower(a[i]) as u32 == b[i] as u32);
                } else {
                    assert(lower(b[i]) as u32 == a[i] as u32);
                }
            }
        }
        assert(lowered(a) =~= lowered(b));
    }
}

/// A file passes a list of extensions exactly when its name ends in one of them,
/// whatever the case; an empty list lets everything through.
pub proof fn law_extensions_decide(name: Seq<char>, exts: Seq<String>)
    requires
        name != seq!['.', '.'],
    ensures
        extension_among(name, exts) <==> exts.len() == 0 || exists|i: int|
            0 <= i < exts.len() && ends_in_extension(name, (#[trigger] exts[i])@),
{
    reveal_strlit("..");
    assert(".."@ =~= seq!['.', '.']);
    let n = name.len() as int;
    assert(name.skip(n) =~= Seq::empty());
    lemma_extension(name, n);
    let k = crate::paths::last_dot(name, n);
    if k > 0 {
        assert(name.subrange(k + 1, n) =~= name.skip(k + 1));
    }
    assert forall|i: int| 0 <= i < exts.len() implies (ends_in_extension(
        name,
        (#[trigger] exts[i])@,
    ) <==> k > 0 && lowered(exts[i]@) == lowered(name.skip(k + 1))) by {
        lemma_lowered_reads(exts[i]@, name.skip(k + 1));
        if ends_in_extension(name, exts[i]@) {
            let m = choose|m: int|
                0 < m < name.len() && #[trigger] name[m] == '.' && !name.skip(m + 1).contains('.')
                    && reads(name.skip(m + 1), exts[i]@);
            if k < 0 {
                assert(name.contains(name[m]));
            } else if m < k {
                assert(name.skip(m + 1)[k - m - 1] == '.');
            } else if k < m {
                assert(name.skip(k + 1)[m - k - 1] == '.');
            }
        }
        if k > 0 && lowered(exts[i]@) == lowered(name.skip(k + 1)) {
            assert(name[k] == '.');
        }
    }
}

/// An entry is listed exactly when it is not hidden or hidden ones are shown, its name
/// has what is searched for, and it is a directory or has one of the extensions. The
/// entries keep their order.
pub proof fn law_what_is_listed(
    entries: Seq<Entry>,
    show_hidden: bool,
    query: Seq<char>,
    exts: Seq<String>,
    n: int,
)
    requires
        0 <= n <= entries.len(),
    ensures
        forall|i: int|
            0 <= i < n ==> (#[trigger] shown_entries(entries, show_hidden, query, exts, n).contains(
                i,
            ) <==> {
                let name = entries[i].name@;
                &&& show_hidden || !(name.len() > 0 && name[0] == '.')
                &&& name_has(name, query)
                &&& entries[i].is_dir || extension_among(name, exts)
            }),
        forall|j: int|
            0 <= j < shown_entries(entries, show_hidden, query, exts, n).len() ==> 0
                <= #[trigger] shown_entries(entries, show_hidden, query, exts, n)[j] < n,
        forall|j: int, k: int|
            0 <= j < k < shown_entries(entries, show_hidden, query, exts, n).len()
                ==> #[trigger] shown_entries(entries, show_hidden, query, exts, n)[j]
                < #[trigger] shown_entries(entries, show_hidden, query, exts, n)[k],
    decreases n,
{
    if n > 0 {
        law_what_is_listed(entries, show_hidden, query, exts, n - 1);
        let before = shown_entries(entries, show_hidden, query, exts, n - 1);
        let after = shown_entries(entries, show_hidden, query, exts, n);
        assert forall|i: int| 0 <= i < n implies (#[trigger] after.contains(i) <==> {
            let name = entries[i].name@;
            &&& show_hidden || !(name.len() > 0 && name[0] == '.')
            &&& name_has(name, query)
            &&& entries[i].is_dir || extension_among(name, exts)
        }) by {
            if i < n - 1 {
                if before.contains(i) {
                    let k = choose|k: int| 0 <= k < before.len() && before[k] == i;
                    assert(after[k] == i);
                }
                if after.contains(i) {
                    let k = choose|k: int| 0 <= k < after.len() && after[k] == i;
                    assert(before[k] == i);
                }
                assert(before.contains(i) <==> after.contains(i));
            } else {
                if entry_shown(entries[i], show_hidden, query, exts) {
                    assert(after[before.len() as int] == i);
                } else if after.contains(i) {
                    let k = choose|k: int| 0 <= k < before.len() && before[k] == i;
                    assert(before[k] < n - 1);
                }
            }
        }
    }
}

/// Nothing searched for lets every name through.
pub proof fn law_blank_searches_find_all(name: Seq<char>, query: Seq<char>)
    requires
        forall|i: int| 0 <= i < query.len() ==> blank(#[trigger] query[i]),
    ensures
        name_has(name, query),
{
    let (i, j) = law_trimmed(query);
    if i < j {
        assert(blank(query[i]));
    }
}

/// White space around what is searched for makes no difference.
pub proof fn law_searches_are_trimmed(name: Seq<char>, a: Seq<char>, query: Seq<char>, b: Seq<char>)
    requires
        forall|i: int| 0 <= i < a.len() ==> blank(#[trigger] a[i]),
        forall|i: int| 0 <= i < b.len() ==> blank(#[trigger] b[i]),
        query.len() > 0,
        !blank(query[0]),
        !blank(query.last()),
    ensures
        name_has(name, a + query + b) == name_has(name, query),
{
    lemma_trim_between(a, query, b);
    let none = Seq::<char>::empty();
    lemma_trim_between(none, query, none);
    assert(none + query + none =~= query);
}

proof fn lemma_trim_between(a: Seq<char>, s: Seq<char>, b: Seq<char>)
    requires
        forall|i: int| 0 <= i < a.len() ==> blank(#[trigger] a[i]),
        forall|i: int| 0 <= i < b.len() ==> blank(#[trigger] b[i]),
        s.len() > 0,
        !blank(s[0]),
        !blank(s.last()),
    ensures
        trimmed(a + s + b) == s,
{
    let all = a + s + b;
    let (i, j) = law_trimmed(all);
    let n = a.len() as int;
    let m = n + s.len();
    assert(all[n] == s[0]);
    assert(all[m - 1] == s.last());
    assert(i <= n && j >= m);
    assert(i < j);
    if i < n {
        assert(all[i] == a[i]);
    }
    if j > m {
        assert(all[j - 1] == b[j - 1 - m]);
    }
    assert(all.subrange(n, m) =~= s);
}

/// A size that has no more than 53 binary digits is taken as it is.
pub proof fn law_sizes_are_exact(n: nat)
    requires
        n < 0x20_0000_0000_0000,
    ensures
        significant(n) == n,
{
    assert(spacing(n) == 1);
    assert(half_even(n, 1) == n);
}

/// The number of a size is the nearest one that can be written with its digits.
pub open spec fn nearest(q: nat, a: nat, b: nat) -> bool {
    2 * (q * b) <= 2 * a + b && 2 * a <= 2 * (q * b) + b
}

proof fn lemma_half_even(a: nat, b: nat)
    requires
        b > 0,
    ensures
        nearest(half_even(a, b), a, b),
{
    let q = a / b;
    let r = a % b;
    assert(a == q * b + r) by (nonlinear_arith)
        requires
            q == a / b,
            r == a % b,
            b > 0,
    ;
    assert(r < b);
    assert((q + 1) * b == q * b + b) by (nonlinear_arith);
}

/// A size is shown in the unit that it has at least one and less than 1024 of, the
/// largest unit being without an upper end; with two digits behind the point where it
/// is less than ten, one where it is less than a hundred, else none; and rounded to
/// the nearest of these numbers.
pub proof fn law_sizes_are_shown_in_their_unit(bytes: u64)
    requires
        1024 <= bytes < 0x20_0000_0000_0000,
    ensures
        ({
            let unit = unit_size(bytes as nat);
            &&& unit == 1024 || unit == 1024 * 1024 || unit == 1024 * 1024 * 1024 || unit == 1024
                * 1024 * 1024 * 1024
            &&& unit <= bytes
            &&& bytes < 1024 * unit || unit == 1024 * 1024 * 1024 * 1024
            &&& unit_name(bytes as nat) == if unit == 1024 {
                "KB"@
            } else if unit == 1024 * 1024 {
                "MB"@
            } else if unit == 1024 * 1024 * 1024 {
                "GB"@
            } else {
                "TB"@
            }
            &&& if bytes < 10 * unit {
                exists|q: nat| #[trigger]
                    nearest(q, (bytes * 100) as nat, unit) && size_text(bytes) == decimal(q / 100)
                        + "."@ + padded(decimal(q % 100), 2) + " "@ + unit_name(bytes as nat)
            } else if bytes < 100 * unit {
                exists|q: nat| #[trigger]
                    nearest(q, (bytes * 10) as nat, unit) && size_text(bytes) == decimal(q / 10)
                        + "."@ + decimal(q % 10) + " "@ + unit_name(bytes as nat)
            } else {
                exists|q: nat| #[trigger]
                    nearest(q, bytes as nat, unit) && size_text(bytes) == decimal(q) + " "@
                        + unit_name(bytes as nat)
            }
        }),
{
    let v = bytes as nat;
    let unit = unit_size(v);
    law_sizes_are_exact(v);
    lemma_half_even(v * 100, unit);
    lemma_half_even(v * 10, unit);
    lemma_half_even(v, unit);
    if v < 10 * unit {
        let q = half_even(v * 100, unit);
        assert(nearest(q, (bytes * 100) as nat, unit));
    } else if v < 100 * unit {
        let q = half_even(v * 10, unit);
        assert(nearest(q, (bytes * 10) as nat, unit));
    } else {
        let q = half_even(v, unit);
        assert(nearest(q, v, unit));
    }
}

/// A size of less than 1024 bytes is shown in bytes.
pub proof fn law_small_sizes_are_shown_in_bytes(bytes: u64)
    requires
        bytes < 1024,
    ensures
        size_text(bytes) == decimal(bytes as nat) + " B"@,
{
    law_sizes_are_exact(bytes as nat);
}

/// An extension is added behind a name, which is kept; the result has the extension.
pub proof fn law_extensions_are_added_behind(name: Seq<char>, ext: Seq<char>)
    ensures
        with_extension(name, ext).take(name.len() as int) == name,
        with_extension(name, ext) == name || with_extension(name, ext) == name + seq!['.'] + ext,
        name.len() == 0 || ext.len() == 0 ==> with_extension(name, ext) == name,
        has_extension(name, ext) ==> with_extension(name, ext) == name,
        name.len() > 0 && ext.len() > 0 && !has_extension(name, ext) ==> with_extension(name, ext)
            == name + seq!['.'] + ext,
{
    reveal_strlit(".");
    assert("."@ =~= seq!['.']);
    assert(name.take(name.len() as int) =~= name);
    assert((name + "."@ + ext).take(name.len() as int) =~= name);
}

/// A tilde stands for the home directory, alone or in front of a slash; an absolute
/// path stands for itself.
pub proof fn law_typed_paths(
    text: Seq<char>,
    cwd: Seq<char>,
    home: Seq<char>,
    absolute: bool,
    path: Seq<char>,
)
    requires
        typed_path(text, cwd, home, absolute, path),
    ensures
        text == seq!['~'] ==> path == home,
        text.len() > 0 && text[0] != '~' && absolute ==> path == text,
        text.len() >= 2 && text[0] == '~' && text[1] == '/' ==> crate::paths::adjoins(
            home,
            text.skip(2),
            path,
        ),
        text.len() > 0 && text[0] != '~' && !absolute ==> crate::paths::adjoins(cwd, text, path),
{
    reveal_strlit("~");
    assert("~"@ =~= seq!['~']);
}

proof fn lemma_equals(s: Seq<char>, i: int, k: int)
    requires
        0 <= i <= k < s.len(),
        s[k] == '=',
        forall|m: int| i <= m < k ==> #[trigger] s[m] != '=',
    ensures
        equals_sign(s, i) == k,
    decreases k - i,
{
    if i < k {
        lemma_equals(s, i + 1, k);
    }
}

proof fn lemma_unquoted(value: Seq<char>)
    requires
        !value.contains('"'),
    ensures
        unquoted(seq!['"'] + value + seq!['"']) == value,
{
    let s = seq!['"'] + value + seq!['"'];
    if value.len() == 0 {
        assert(s =~= seq!['"', '"']);
        reveal_with_fuel(crate::filebrowser::skip_quotes, 3);
        reveal_with_fuel(crate::filebrowser::drop_quotes, 3);
        assert(unquoted(s) =~= value);
    } else {
        assert(s[0] == '"');
        assert(s[1] == value[0]);
        assert(value.contains(value[0]));
        reveal_with_fuel(crate::filebrowser::skip_quotes, 3);
        assert(crate::filebrowser::skip_quotes(s, 0) == 1);
        let n = s.len() as int;
        assert(s[n - 1] == '"');
        assert(s[n - 2] == value.last());
        assert(value.contains(value[value.len() - 1]));
        reveal_with_fuel(crate::filebrowser::drop_quotes, 3);
        assert(crate::filebrowser::drop_quotes(s, 1, n) == n - 1);
        assert(s.subrange(1, n - 1) =~= value);
    }
}

/// A line of the desktop's list gives the directory in quotation marks for the name in
/// front of the equals sign; `$HOME/` in front of it stands for the home directory.
/// Comments and other names give none.
pub proof fn law_lines_name_directories(name: Seq<char>, value: Seq<char>, key: Seq<char>)
    requires
        name.len() > 0,
        !name.contains('='),
        name[0] != '#',
        !blank(name[0]),
        !blank(name.last()),
        value.len() > 0,
        !value.contains('"'),
    ensures
        ({
            let line = name + seq!['=', '"'] + value + seq!['"'];
            let home = seq!['$', 'H', 'O', 'M', 'E', '/'];
            &&& name != key ==> user_dir_line(line, key) is None
            &&& name == key && value.len() >= 6 && value.take(6) == home ==> user_dir_line(line, key)
                == Some(Some(UserDir::Home(value.skip(6))))
            &&& name == key && !(value.len() >= 6 && value.take(6) == home) ==> user_dir_line(
                line,
                key,
            ) == Some(Some(UserDir::At(value)))
        }),
        user_dir_line(seq!['#'] + name, key) is None,
{
    reveal_strlit("$HOME/");
    let home = seq!['$', 'H', 'O', 'M', 'E', '/'];
    assert("$HOME/"@ =~= home);
    let line = name + seq!['=', '"'] + value + seq!['"'];
    let k = name.len() as int;
    assert(line[k] == '=');
    assert forall|m: int| 0 <= m < k implies #[trigger] line[m] != '=' by {
        assert(line[m] == name[m]);
        assert(name.contains(name[m]));
    }
    lemma_equals(line, 0, k);
    let none = Seq::<char>::empty();
    assert(line.subrange(0, k) =~= name);
    lemma_trim_between(none, name, none);
    assert(none + name + none =~= name);
    let quoted = seq!['"'] + value + seq!['"'];
    assert(line.subrange(k + 1, line.len() as int) =~= quoted);
    assert(!blank('"'));
    assert(quoted[0] == '"' && quoted.last() == '"');
    lemma_trim_between(none, quoted, none);
    assert(none + quoted + none =~= quoted);
    lemma_unquoted(value);
    assert(line[0] == name[0]);
    if value.len() >= 6 {
        assert(value.take(6) =~= value.subrange(0, 6));
    }
    assert((seq!['#'] + name)[0] == '#');
}

/// A name is found by any part of it, whatever the case.
pub proof fn law_names_are_found_by_their_parts(name: Seq<char>, query: Seq<char>)
    ensures
        name_has(name, query) <==> trimmed(query).len() == 0 || exists|k: int|
            0 <= k && k + unicode_lower(trimmed(query)).len() <= unicode_lower(name).len()
                && #[trigger] unicode_lower(name).subrange(
                k,
                k + unicode_lower(trimmed(query)).len(),
            ) == unicode_lower(trimmed(query)),
{
    let small = unicode_lower(name);
    let part = unicode_lower(trimmed(query));
    if name_has(name, query) && trimmed(query).len() > 0 {
        let k = choose|k: int| occurs_at(small, part, k);
        assert(small.subrange(k, k + part.len()) == part);
    }
    if exists|k: int|
        0 <= k && k + part.len() <= small.len() && #[trigger] small.subrange(k, k + part.len())
            == part {
        let k = choose|k: int|
            0 <= k && k + part.len() <= small.len() && #[trigger] small.subrange(k, k + part.len())
                == part;
        assert(occurs_at(small, part, k));
    }
}

/// The answer of the first line from the `k`-th on that has one.
pub open spec fn first_answer(lines: Seq<Seq<char>>, key: Seq<char>, k: int) -> Option<UserDir>
    decreases lines.len() - k,
{
    if k < 0 || k >= lines.len() {
        None
    } else {
        match user_dir_line(trimmed(lines[k]), key) {
            Some(answer) => answer,
            None => first_answer(lines, key, k + 1),
        }
    }
}

proof fn lemma_first_answer(s: Seq<char>, i: int, lines: Seq<Seq<char>>, key: Seq<char>, k: int)
    requires
        forall|m: int| 0 <= m < lines.len() ==> !(#[trigger] lines[m]).contains('\n'),
        0 <= k < lines.len(),
        0 <= i <= s.len(),
        s.skip(i) == written(lines, only_feeds(lines), k),
    ensures
        user_dir_from(s, i, key) == first_answer(lines, key, k),
    decreases lines.len() - k,
{
    let line = lines[k];
    let feeds = only_feeds(lines);
    let rest = s.skip(i);
    let j = i + line.len();
    if k < lines.len() - 1 {
        assert(feeds[k] == seq!['\n']);
        assert(rest == line + seq!['\n'] + written(lines, feeds, k + 1));
    }
    assert(line.len() <= rest.len());
    assert forall|m: int| i <= m < j implies #[trigger] s[m] != '\n' by {
        assert(s[m] == rest[m - i]);
        assert(rest[m - i] == line[m - i]);
        assert(line.contains(line[m - i]));
    }
    assert(s.subrange(i, j) =~= line) by {
        assert(s.subrange(i, j) =~= rest.subrange(0, line.len() as int));
    }
    if k == lines.len() - 1 {
        assert(j == s.len());
        assert(first_answer(lines, key, k + 1) is None);
        if i < s.len() {
            lemma_line_stops(s, i, j);
            assert(user_dir_from(s, j + 1, key) is None);
        } else {
            assert(line =~= Seq::empty());
            let (a, b) = law_trimmed(line);
            assert(trimmed(line).len() == 0);
        }
    } else {
        assert(s[j] == '\n') by {
            assert(rest[line.len() as int] == '\n');
        }
        lemma_line_stops(s, i, j);
        assert(s.skip(j + 1) =~= written(lines, feeds, k + 1)) by {
            assert(s.skip(j + 1) =~= rest.skip(1int + line.len()));
        }
        lemma_first_answer(s, j + 1, lines, key, k + 1);
    }
}

/// The desktop's list is gone through line by line; the first line that names the
/// directory counts.
pub proof fn law_first_line_counts(lines: Seq<Seq<char>>, key: Seq<char>)
    requires
        lines.len() > 0,
        forall|m: int| 0 <= m < lines.len() ==> !(#[trigger] lines[m]).contains('\n'),
    ensures
        user_dir_from(written(lines, only_feeds(lines), 0), 0, key) == first_answer(lines, key, 0),
{
    let s = written(lines, only_feeds(lines), 0);
    assert(s.skip(0) =~= s);
    lemma_first_answer(s, 0, lines, key, 0);
}

} // verus!
