//! The ignore policy: which archive entries a listing hides.

use vstd::prelude::*;
use vstd::string::*;

verus! {

/// `i` is the position of the last `/` in `name`.
pub open spec fn is_last_slash(name: Seq<char>, i: int) -> bool {
    &&& 0 <= i < name.len()
    &&& name[i] == '/'
    &&& forall|k: int| i < k < name.len() ==> name[k] != '/'
}

/// The final path segment: what follows the last `/`, or the whole name.
pub open spec fn base_name(name: Seq<char>) -> Seq<char> {
    if exists|i: int| is_last_slash(name, i) {
        name.subrange((choose|i: int| is_last_slash(name, i)) + 1, name.len() as int)
    } else {
        name
    }
}

pub open spec fn is_ascii_alnum(c: char) -> bool {
    ||| ('0' as u32) <= (c as u32) <= ('9' as u32)
    ||| ('a' as u32) <= (c as u32) <= ('z' as u32)
    ||| ('A' as u32) <= (c as u32) <= ('Z' as u32)
}

/// `i` is a `.` that only ASCII letters and digits follow.
pub open spec fn is_extension_at(name: Seq<char>, i: int) -> bool {
    &&& 0 <= i < name.len()
    &&& name[i] == '.'
    &&& forall|k: int| i < k < name.len() ==> is_ascii_alnum(#[trigger] name[k])
}

/// The extension of a name: from its last `.` to the end, when only ASCII
/// letters and digits follow that `.`; otherwise empty. Since neither `.`
/// nor `/` is alphanumeric, that `.` lies in the base name and is its last.
pub open spec fn extension(name: Seq<char>) -> Seq<char> {
    if exists|i: int| is_extension_at(name, i) {
        name.subrange(choose|i: int| is_extension_at(name, i), name.len() as int)
    } else {
        Seq::empty()
    }
}

pub fn is_ascii_alphanumeric(c: char) -> (r: bool)
    ensures
        r == is_ascii_alnum(c),
{
    let u = c as u32;
    ('0' as u32 <= u && u <= '9' as u32) || ('a' as u32 <= u && u <= 'z' as u32) || ('A' as u32
        <= u && u <= 'Z' as u32)
}

/// The base name of a path: what follows its last `/`.
pub fn get_file_name(file_path: &str) -> (r: &str)
    ensures
        r@ == base_name(file_path@),
{
    let n = file_path.unicode_len();
    let mut j: usize = n;
    while j > 0 && file_path.get_char(j - 1) != '/'
        invariant
            n == file_path@.len(),
            j <= n,
            forall|k: int| j <= k < n ==> file_path@[k] != '/',
        decreases j,
    {
        j = j - 1;
    }
    proof {
        let s = file_path@;
        if j > 0 {
            assert(is_last_slash(s, j - 1));
            let c = choose|i: int| is_last_slash(s, i);
            assert(c == j - 1);
        } else {
            assert(!exists|i: int| is_last_slash(s, i));
            assert(s.subrange(0, n as int) =~= s);
        }
    }
    file_path.substring_char(j, n)
}

/// The extension of a path, `.` included, or the empty string.
pub fn get_file_extension(file_path: &str) -> (r: &str)
    ensures
        r@ == extension(file_path@),
{
    let n = file_path.unicode_len();
    let mut j: usize = n;
    while j > 0 && is_ascii_alphanumeric(file_path.get_char(j - 1))
        invariant
            n == file_path@.len(),
            j <= n,
            forall|k: int| j <= k < n ==> is_ascii_alnum(#[trigger] file_path@[k]),
        decreases j,
    {
        j = j - 1;
    }
    let s = Ghost(file_path@);
    if j > 0 && file_path.get_char(j - 1) == '.' {
        proof {
            assert(is_extension_at(s@, j - 1));
            let c = choose|i: int| is_extension_at(s@, i);
            if c < j - 1 {
                assert(is_ascii_alnum(s@[j - 1]));
            } else if c > j - 1 {
                assert(is_ascii_alnum(s@[c]));
            }
        }
        file_path.substring_char(j - 1, n)
    } else {
        proof {
            assert forall|i: int| !is_extension_at(s@, i) by {
                if is_extension_at(s@, i) {
                    if i < j - 1 {
                        assert(is_ascii_alnum(s@[j - 1]));
                    } else if i >= j {
                        assert(is_ascii_alnum(s@[i]));
                    }
                }
            }
        }
        proof {
            reveal_strlit("");
        }
        ""
    }
}


/// ASCII case folding of one character, as a code point.
pub open spec fn fold(c: char) -> u32 {
    if ('A' as u32) <= (c as u32) <= ('Z' as u32) {
        (c as u32 - 'A' as u32 + 'a' as u32) as u32
    } else {
        c as u32
    }
}

/// Equal up to ASCII case.
pub open spec fn eq_ignore_case(a: Seq<char>, b: Seq<char>) -> bool {
    &&& a.len() == b.len()
    &&& forall|i: int| 0 <= i < a.len() ==> fold(#[trigger] a[i]) == fold(b[i])
}

pub open spec fn has_prefix(s: Seq<char>, p: Seq<char>) -> bool {
    p.len() <= s.len() && s.subrange(0, p.len() as int) == p
}

pub open spec fn occurs_at(s: Seq<char>, p: Seq<char>, i: int) -> bool {
    0 <= i && i + p.len() <= s.len() && s.subrange(i, i + p.len()) == p
}

pub open spec fn contains(s: Seq<char>, p: Seq<char>) -> bool {
    exists|i: int| occurs_at(s, p, i)
}

/// A pattern that ends with `/` names a directory part of a path.
pub open spec fn is_dir_pattern(p: Seq<char>) -> bool {
    p.len() > 0 && p.last() == '/'
}

/// A pattern that starts with `.` names an extension.
pub open spec fn is_ext_pattern(p: Seq<char>) -> bool {
    p.len() > 0 && p[0] == '.'
}

/// Whether one pattern hides a file entry of the given name: by a directory
/// part it contains, by its extension (ignoring ASCII case), or by the start
/// of its base name. The empty pattern hides nothing.
pub open spec fn pattern_hides(name: Seq<char>, p: Seq<char>) -> bool {
    ||| is_dir_pattern(p) && contains(name, p)
    ||| is_ext_pattern(p) && eq_ignore_case(extension(name), p)
    ||| p.len() > 0 && !is_ext_pattern(p) && has_prefix(base_name(name), p)
}

/// Whether a listing hides an entry: every directory, and every file that some
/// pattern hides.
pub open spec fn suppressed(name: Seq<char>, is_directory: bool, patterns: Seq<Seq<char>>) -> bool {
    is_directory || exists|i: int| 0 <= i < patterns.len() && pattern_hides(name, #[trigger] patterns[i])
}

fn fold_char(c: char) -> (r: u32)
    ensures
        r == fold(c),
{
    let u = c as u32;
    if 'A' as u32 <= u && u <= 'Z' as u32 {
        u - 'A' as u32 + 'a' as u32
    } else {
        u
    }
}

/// Compares two strings, ignoring ASCII case.
pub fn eq_ignore_ascii_case(a: &str, b: &str) -> (r: bool)
    ensures
        r == eq_ignore_case(a@, b@),
{
    let n = a.unicode_len();
    if n != b.unicode_len() {
        return false;
    }
    let mut i: usize = 0;
    while i < n
        invariant
            n == a@.len() == b@.len(),
            i <= n,
            forall|k: int| 0 <= k < i ==> fold(#[trigger] a@[k]) == fold(b@[k]),
        decreases n - i,
    {
        if fold_char(a.get_char(i)) != fold_char(b.get_char(i)) {
            return false;
        }
        i = i + 1;
    }
    true
}

/// Whether `p` occurs in `s` at char position `i`.
fn occurs_at_exec(s: &str, p: &str, i: usize) -> (r: bool)
    requires
        i + p@.len() <= s@.len(),
    ensures
        r == occurs_at(s@, p@, i as int),
{
    let n = s.unicode_len();
    let m = p.unicode_len();
    let mut k: usize = 0;
    while k < m
        invariant
            m == p@.len(),
            n == s@.len(),
            i + m <= s@.len(),
            k <= m,
            forall|t: int| 0 <= t < k ==> s@[i + t] == p@[t],
        decreases m - k,
    {
        if s.get_char(i + k) != p.get_char(k) {
            assert(s@.subrange(i as int, i + m)[k as int] != p@[k as int]);
            return false;
        }
        k = k + 1;
    }
    assert(s@.subrange(i as int, i + m) =~= p@);
    true
}

pub fn starts_with(s: &str, p: &str) -> (r: bool)
    ensures
        r == has_prefix(s@, p@),
{
    if p.unicode_len() > s.unicode_len() {
        return false;
    }
    occurs_at_exec(s, p, 0)
}

pub fn contains_str(s: &str, p: &str) -> (r: bool)
    ensures
        r == contains(s@, p@),
{
    let n = s.unicode_len();
    let m = p.unicode_len();
    if m > n {
        return false;
    }
    let mut i: usize = 0;
    loop
        invariant
            n == s@.len(),
            m == p@.len(),
            m <= n,
            i <= n - m,
            forall|t: int| 0 <= t < i ==> !occurs_at(s@, p@, t),
        ensures
            forall|t: int| 0 <= t <= n - m ==> !occurs_at(s@, p@, t),
        decreases n - m - i,
    {
        if occurs_at_exec(s, p, i) {
            return true;
        }
        if i == n - m {
            break;
        }
        i = i + 1;
    }
    proof {
        assert forall|t: int| !occurs_at(s@, p@, t) by {
            if occurs_at(s@, p@, t) {
                assert(t <= n - m);
            }
        }
    }
    false
}


/// One entry of an archive: its path inside the archive and whether it is a
/// directory marker.
pub struct Entry {
    pub name: String,
    pub is_directory: bool,
}

impl View for Entry {
    type V = (Seq<char>, bool);

    open spec fn view(&self) -> (Seq<char>, bool) {
        (self.name@, self.is_directory)
    }
}

pub open spec fn entry_views(v: Seq<Entry>) -> Seq<(Seq<char>, bool)> {
    v.map_values(|e: Entry| e@)
}

pub open spec fn string_views(v: Seq<String>) -> Seq<Seq<char>> {
    v.map_values(|s: String| s@)
}

/// `, ` starts at position `i`.
pub open spec fn sep_at(s: Seq<char>, i: int) -> bool {
    &&& 0 <= i
    &&& i + 1 < s.len()
    &&& s[i] == ','
    &&& s[i + 1] == ' '
}

/// `r` with `c` put in front of its first piece.
pub open spec fn prepend_first(c: Seq<char>, r: Seq<Seq<char>>) -> Seq<Seq<char>> {
    r.update(0, c + r[0])
}

/// The pieces of `s` between the separators `, `, in order; the empty string
/// gives one empty piece.
pub open spec fn split_list(s: Seq<char>) -> Seq<Seq<char>>
    decreases s.len(),
{
    if s.len() == 0 {
        seq![Seq::<char>::empty()]
    } else if sep_at(s, 0) {
        seq![Seq::<char>::empty()] + split_list(s.subrange(2, s.len() as int))
    } else {
        prepend_first(seq![s[0]], split_list(s.drop_first()))
    }
}

pub proof fn lemma_split_nonempty(s: Seq<char>)
    ensures
        split_list(s).len() >= 1,
    decreases s.len(),
{
    if s.len() > 0 && !sep_at(s, 0) {
        lemma_split_nonempty(s.drop_first());
    }
}

/// The entries that a listing shows, by name, in their order.
pub open spec fn listing(entries: Seq<(Seq<char>, bool)>, patterns: Seq<Seq<char>>) -> Seq<
    Seq<char>,
>
    decreases entries.len(),
{
    if entries.len() == 0 {
        Seq::empty()
    } else {
        let rest = listing(entries.drop_last(), patterns);
        let e = entries.last();
        if suppressed(e.0, e.1, patterns) {
            rest
        } else {
            rest.push(e.0)
        }
    }
}

/// Whether one pattern hides a file entry named `name`.
pub fn pattern_hides_file(name: &str, pattern: &str) -> (r: bool)
    ensures
        r == pattern_hides(name@, pattern@),
{
    let m = pattern.unicode_len();
    if m == 0 {
        return false;
    }
    if pattern.get_char(m - 1) == '/' && contains_str(name, pattern) {
        return true;
    }
    if pattern.get_char(0) == '.' {
        eq_ignore_ascii_case(get_file_extension(name), pattern)
    } else {
        starts_with(get_file_name(name), pattern)
    }
}

/// The ordered patterns of an ignore policy.
pub struct IgnoreSpec {
    pub patterns: Vec<String>,
}

impl View for IgnoreSpec {
    type V = Seq<Seq<char>>;

    open spec fn view(&self) -> Seq<Seq<char>> {
        string_views(self.patterns@)
    }
}

impl IgnoreSpec {
    /// Reads a policy from its configured value: the patterns joined by `, `.
    pub fn parse(value: &str) -> (r: IgnoreSpec)
        ensures
            r@ == split_list(value@),
    {
        let n = value.unicode_len();
        let ghost s = value@;
        let mut patterns: Vec<String> = Vec::new();
        let mut start: usize = 0;
        let mut i: usize = 0;
        proof {
            lemma_split_nonempty(s);
            assert(s.subrange(0, n as int) =~= s);
            assert(prepend_first(Seq::empty(), split_list(s)) =~= split_list(s));
        }
        while i < n
            invariant
                s == value@,
                n == s.len(),
                start <= i <= n,
                split_list(s) == string_views(patterns@) + prepend_first(
                    s.subrange(start as int, i as int),
                    split_list(s.subrange(i as int, n as int)),
                ),
            decreases n - i,
        {
            let ghost cur = s.subrange(start as int, i as int);
            let ghost t = s.subrange(i as int, n as int);
            if value.get_char(i) == ',' && i + 1 < n && value.get_char(i + 1) == ' ' {
                let piece = value.substring_char(start, i).to_owned();
                proof {
                    assert(sep_at(t, 0));
                    let x = split_list(s.subrange(i + 2, n as int));
                    assert(t.subrange(2, t.len() as int) =~= s.subrange(i + 2, n as int));
                    lemma_split_nonempty(s.subrange(i + 2, n as int));
                    assert(prepend_first(cur, seq![Seq::<char>::empty()] + x) =~= seq![cur] + x);
                    assert(prepend_first(Seq::empty(), x) =~= x);
                    assert(s.subrange(i + 2, i + 2) =~= Seq::<char>::empty());
                }
                patterns.push(piece);
                proof {
                    assert(string_views(patterns@) =~= string_views(patterns@.drop_last()).push(cur));
                }
                i = i + 2;
                start = i;
            } else {
                proof {
                    assert(!sep_at(t, 0));
                    let y = split_list(t.drop_first());
                    assert(t.drop_first() =~= s.subrange(i + 1, n as int));
                    lemma_split_nonempty(t.drop_first());
                    assert(s.subrange(start as int, i + 1) =~= cur + seq![t[0]]);
                    assert(cur + (seq![t[0]] + y[0]) =~= (cur + seq![t[0]]) + y[0]);
                    assert(prepend_first(cur, prepend_first(seq![t[0]], y)) =~= prepend_first(
                        cur + seq![t[0]],
                        y,
                    ));
                }
                i = i + 1;
            }
        }
        let last = value.substring_char(start, n).to_owned();
        let ghost before = patterns@;
        patterns.push(last);
        proof {
            assert(s.subrange(n as int, n as int) =~= Seq::<char>::empty());
            assert(string_views(patterns@) =~= string_views(before).push(last@));
            assert(prepend_first(last@, seq![Seq::<char>::empty()]) =~= seq![last@]);
        }
        IgnoreSpec { patterns }
    }

    /// Whether a listing under this policy hides the entry.
    pub fn suppresses(&self, entry: &Entry) -> (r: bool)
        ensures
            r == suppressed(entry.name@, entry.is_directory, self@),
    {
        if entry.is_directory {
            return true;
        }
        let mut i: usize = 0;
        while i < self.patterns.len()
            invariant
                !entry.is_directory,
                i <= self.patterns.len(),
                forall|k: int| 0 <= k < i ==> !pattern_hides(entry.name@, #[trigger] self@[k]),
            decreases self.patterns.len() - i,
        {
            assert(self@[i as int] == self.patterns@[i as int]@);
            if pattern_hides_file(entry.name.as_str(), self.patterns[i].as_str()) {
                return true;
            }
            i = i + 1;
        }
        false
    }

    /// The names of the entries that this policy lets through, in their order.
    pub fn filter_entries(&self, entries: &Vec<Entry>) -> (r: Vec<String>)
        ensures
            string_views(r@) == listing(entry_views(entries@), self@),
    {
        let mut out: Vec<String> = Vec::new();
        let mut i: usize = 0;
        while i < entries.len()
            invariant
                i <= entries.len(),
                string_views(out@) == listing(entry_views(entries@).subrange(0, i as int), self@),
            decreases entries.len() - i,
        {
            let ghost before = out@;
            proof {
                let ev = entry_views(entries@);
                assert(ev.subrange(0, i + 1).drop_last() =~= ev.subrange(0, i as int));
            }
            if !self.suppresses(&entries[i]) {
                let name = entries[i].name.clone();
                out.push(name);
                proof {
                    assert(string_views(out@) =~= string_views(before).push(name@));
                }
            }
            i = i + 1;
        }
        proof {
            assert(entry_views(entries@).subrange(0, entries.len() as int) =~= entry_views(entries@));
        }
        out
    }
}


/// Every name in a listing is the name of a file entry of the listed
/// entries: no directory entry shows, whatever the patterns.
pub proof fn listing_shows_only_files(entries: Seq<(Seq<char>, bool)>, patterns: Seq<Seq<char>>)
    ensures
        forall|k: int|
            0 <= k < listing(entries, patterns).len() ==> exists|j: int|
                0 <= j < entries.len() && entries[j].0 == #[trigger] listing(entries, patterns)[k]
                    && !entries[j].1,
    decreases entries.len(),
{
    if entries.len() > 0 {
        let rest = entries.drop_last();
        listing_shows_only_files(rest, patterns);
        let l = listing(entries, patterns);
        let lr = listing(rest, patterns);
        assert forall|k: int| 0 <= k < l.len() implies exists|j: int|
            0 <= j < entries.len() && entries[j].0 == #[trigger] l[k] && !entries[j].1 by {
            if k < lr.len() {
                assert(l[k] == lr[k]);
                let j = choose|j: int| 0 <= j < rest.len() && rest[j].0 == lr[k] && !rest[j].1;
                assert(entries[j] == rest[j]);
            } else {
                let j = entries.len() - 1;
                assert(entries[j].0 == l[k] && !entries[j].1);
            }
        }
    }
}

/// Every directory entry is hidden, whatever the patterns, none included.
pub proof fn directories_always_hidden(name: Seq<char>, patterns: Seq<Seq<char>>)
    ensures
        suppressed(name, true, patterns),
{
}

/// A file whose name ends, up to ASCII case, in an extension pattern of the
/// policy (a `.` followed by ASCII letters and digits) is hidden.
pub proof fn extension_pattern_hides(name: Seq<char>, patterns: Seq<Seq<char>>, i: int)
    requires
        0 <= i < patterns.len(),
        is_ext_pattern(patterns[i]),
        forall|k: int| 0 < k < patterns[i].len() ==> is_ascii_alnum(#[trigger] patterns[i][k]),
        patterns[i].len() <= name.len(),
        eq_ignore_case(name.subrange(name.len() - patterns[i].len(), name.len() as int), patterns[i]),
    ensures
        suppressed(name, false, patterns),
{
    let p = patterns[i];
    let j = name.len() - p.len();
    let tail = name.subrange(j, name.len() as int);
    assert(fold(tail[0]) == fold(p[0]));
    assert(name[j] == tail[0]);
    assert(name[j] as u32 == '.' as u32);
    vstd::utf8::char_u32_cast(name[j], name[j] as u32);
    vstd::utf8::char_u32_cast('.', '.' as u32);
    assert(name[j] == '.');
    assert forall|k: int| j < k < name.len() implies is_ascii_alnum(#[trigger] name[k]) by {
        assert(name[k] == tail[k - j]);
        assert(fold(tail[k - j]) == fold(p[k - j]));
        assert(is_ascii_alnum(p[k - j]));
    }
    assert(is_extension_at(name, j));
    let c = choose|t: int| is_extension_at(name, t);
    if c < j {
        assert(is_ascii_alnum(name[j]));
    } else if c > j {
        assert(is_ascii_alnum(name[c]));
    }
    assert(extension(name) == tail);
    assert(pattern_hides(name, patterns[i]));
}

/// A file whose base name starts with a pattern that is neither empty nor
/// an extension pattern is hidden.
pub proof fn prefix_pattern_hides(name: Seq<char>, patterns: Seq<Seq<char>>, i: int)
    requires
        0 <= i < patterns.len(),
        patterns[i].len() > 0,
        !is_ext_pattern(patterns[i]),
        has_prefix(base_name(name), patterns[i]),
    ensures
        suppressed(name, false, patterns),
{
    assert(pattern_hides(name, patterns[i]));
}

/// The policy read from an empty value hides directories and nothing else.
pub proof fn empty_policy_hides_only_directories(name: Seq<char>, is_directory: bool)
    ensures
        split_list(Seq::empty()) == seq![Seq::<char>::empty()],
        suppressed(name, is_directory, split_list(Seq::empty())) == is_directory,
{
    let patterns = split_list(Seq::empty());
    assert(!pattern_hides(name, patterns[0]));
}

/// Under the policy read from an empty value, a listing of entries that
/// holds no directory shows every entry, in order.
pub proof fn empty_policy_lists_every_file(entries: Seq<(Seq<char>, bool)>)
    requires
        forall|k: int| 0 <= k < entries.len() ==> !(#[trigger] entries[k]).1,
    ensures
        listing(entries, split_list(Seq::empty())) == entries.map_values(
            |e: (Seq<char>, bool)| e.0,
        ),
    decreases entries.len(),
{
    if entries.len() > 0 {
        let rest = entries.drop_last();
        assert forall|k: int| 0 <= k < rest.len() implies !(#[trigger] rest[k]).1 by {
            assert(rest[k] == entries[k]);
        }
        empty_policy_lists_every_file(rest);
        empty_policy_hides_only_directories(entries.last().0, entries.last().1);
        assert(entries.map_values(|e: (Seq<char>, bool)| e.0) =~= rest.map_values(
            |e: (Seq<char>, bool)| e.0,
        ).push(entries.last().0));
    }
}

} // verus!
