//! Names and pronouns, and the text templates that refer to a character by them.

use crate::vault::{byte_len, char_len, char_width, lemma_byte_len_concat, lemma_byte_len_prefix};
use vstd::prelude::*;
use vstd::string::*;

verus! {

/// For dynamically addressing a character.
/// This should encompass almost every (dynamic) way of addressing someone or something.
#[derive(Debug)]
pub struct Nouns {
    pub name: String,
    /// If true, will be addressed as "Name", rather than "The name" or "A name".
    pub proper_name: bool,
    pub pronouns: Pronouns,
}

impl Clone for Nouns {
    fn clone(&self) -> (res: Nouns)
        ensures
            res == *self,
    {
        Nouns { name: self.name.clone(), proper_name: self.proper_name, pronouns: self.pronouns }
    }
}

#[derive(Clone, Copy, Debug, PartialEq, Eq, Structural)]
pub enum Pronouns {
    Female,
    Male,
    /// Neutral (they) is special because it necessitates "plural verbs".
    /// Even when used as a singular pronoun, verbs still treat "they" as plural.
    Neutral,
    Object,
}

impl Pronouns {
    /// The pronouns of a name as scripts write them: `female`, `male`, `neutral` or `object`.
    pub fn from_name(name: &str) -> (res: Option<Pronouns>)
        ensures
            res == (if name@ == "female"@ {
                Some(Pronouns::Female)
            } else if name@ == "male"@ {
                Some(Pronouns::Male)
            } else if name@ == "neutral"@ {
                Some(Pronouns::Neutral)
            } else if name@ == "object"@ {
                Some(Pronouns::Object)
            } else {
                None::<Pronouns>
            }),
    {
        if crate::gui::is_word(name, "female") {
            Some(Pronouns::Female)
        } else if crate::gui::is_word(name, "male") {
            Some(Pronouns::Male)
        } else if crate::gui::is_word(name, "neutral") {
            Some(Pronouns::Neutral)
        } else if crate::gui::is_word(name, "object") {
            Some(Pronouns::Object)
        } else {
            None
        }
    }
}

impl Default for Pronouns {
    fn default() -> (p: Pronouns)
        ensures
            p == Pronouns::Object,
    {
        Pronouns::Object
    }
}


/// The first index at or after `from` where `s` holds `c`.
pub open spec fn find_char(s: Seq<char>, c: char, from: int) -> Option<int>
    decreases s.len() - from,
{
    if from < 0 || from >= s.len() {
        None
    } else if s[from] == c {
        Some(from)
    } else {
        find_char(s, c, from + 1)
    }
}

/// The index of the character of `s` that begins at byte `i` (`s.len()` for the end), if one does.
pub open spec fn char_at_byte(s: Seq<char>, i: int) -> Option<int> {
    if exists|k: int| 0 <= k <= s.len() && #[trigger] byte_len(s.take(k)) == i {
        Some(choose|k: int| 0 <= k <= s.len() && #[trigger] byte_len(s.take(k)) == i)
    } else {
        None
    }
}

/// What stands before the name in place of the tag `{source}`: nothing for a proper name,
/// an article otherwise; `None` for a tag that does not address the character.
pub open spec fn tag_prefix(proper_name: bool, source: Seq<char>) -> Option<Seq<char>> {
    if source == "Address"@ {
        Some(if proper_name { Seq::empty() } else { "The "@ })
    } else if source == "address"@ {
        Some(if proper_name { Seq::empty() } else { "the "@ })
    } else if source == "Indirect"@ {
        Some(if proper_name { Seq::empty() } else { "A "@ })
    } else if source == "indirect"@ {
        Some(if proper_name { Seq::empty() } else { "a "@ })
    } else {
        None
    }
}

/// The number of times `c` occurs in `s`.
pub open spec fn char_count(s: Seq<char>, c: char) -> nat
    decreases s.len(),
{
    if s.len() == 0 {
        0
    } else {
        char_count(s.drop_last(), c) + if s.last() == c { 1nat } else { 0nat }
    }
}

/// No character of `s` is `c`.
pub open spec fn lacks(s: Seq<char>, c: char) -> bool {
    forall|j: int| 0 <= j < s.len() ==> s[j] != c
}

/// A name that the scan can put into text and finish: it lacks one of the two braces, so that
/// every expansion uses up a brace of the text, and its length in bytes, with an article, fits
/// in a `usize`.
pub open spec fn name_fits(name: Seq<char>) -> bool {
    &&& lacks(name, '{') || lacks(name, '}')
    &&& byte_len(name) + 16 <= usize::MAX
}

/// Where a scan of the tags of a text stands: still scanning the text from a byte offset,
/// done with the text it holds, or stuck on an offset that falls inside a character.
pub enum TagScan {
    Scanning(Seq<char>, int),
    Finished(Seq<char>),
    Stuck,
}

/// The tag `start..=end` of `s` replaced by `r`, without the first `'}'` from `start` on; the
/// scan goes on from the byte offset that this brace had counted from `start`.
pub open spec fn expansion(s: Seq<char>, start: int, end: int, r: Seq<char>) -> TagScan {
    let s1 = s.take(start) + r + s.skip(end);
    match find_char(s1, '}', start) {
        Some(k) => TagScan::Scanning(s1.remove(k), byte_len(s1.subrange(start, k)) as int),
        None => TagScan::Finished(s1),
    }
}

/// One step of the scan: the next tag from the offset is expanded, or stepped over when it
/// does not address the character. After an expansion the scan goes on from the byte offset,
/// counted from the start of the text, that the closing brace had counted from the tag.
pub open spec fn scan_step(st: TagScan, proper_name: bool, name: Seq<char>) -> TagScan {
    match st {
        TagScan::Scanning(s, i) => match char_at_byte(s, i) {
            None => TagScan::Stuck,
            Some(ci) => match find_char(s, '{', ci) {
                None => TagScan::Finished(s),
                Some(start) => match find_char(s, '}', start) {
                    None => TagScan::Finished(s),
                    Some(end) => match tag_prefix(proper_name, s.subrange(start + 1, end)) {
                        None => TagScan::Scanning(s, byte_len(s.take(end)) as int),
                        Some(prefix) => expansion(s, start, end, prefix + name),
                    },
                },
            },
        },
        _ => st,
    }
}

/// The scan after `n` steps.
pub open spec fn scan_run(st: TagScan, n: nat, proper_name: bool, name: Seq<char>) -> TagScan
    decreases n,
{
    if n == 0 {
        st
    } else {
        scan_run(scan_step(st, proper_name, name), (n - 1) as nat, proper_name, name)
    }
}

/// Whether the scan of the tags of `text` ends in `end`.
pub open spec fn scan_ends_in(text: Seq<char>, proper_name: bool, name: Seq<char>, end: TagScan) -> bool {
    exists|n: nat| #[trigger] scan_run(TagScan::Scanning(text, 0), n, proper_name, name) == end
}

/// Whether the scan of the tags of `text` comes to an end, finished or stuck.
pub open spec fn scan_halts(text: Seq<char>, proper_name: bool, name: Seq<char>) -> bool {
    exists|n: nat| !(#[trigger] scan_run(TagScan::Scanning(text, 0), n, proper_name, name) is Scanning)
}

/// Once the scan has ended it stays where it ended.
proof fn lemma_scan_run_stays(st: TagScan, n0: nat, m: nat, proper_name: bool, name: Seq<char>)
    requires
        !(scan_run(st, n0, proper_name, name) is Scanning),
        n0 <= m,
    ensures
        scan_run(st, m, proper_name, name) == scan_run(st, n0, proper_name, name),
    decreases m - n0,
{
    if m > n0 {
        lemma_scan_run_stays(st, n0, (m - 1) as nat, proper_name, name);
        lemma_scan_run_step(st, (m - 1) as nat, proper_name, name);
    }
}

/// A scan ends in at most one way.
proof fn lemma_scan_ends_unique(text: Seq<char>, proper_name: bool, name: Seq<char>, a: TagScan, b: TagScan)
    requires
        scan_ends_in(text, proper_name, name, a),
        scan_ends_in(text, proper_name, name, b),
        !(a is Scanning),
        !(b is Scanning),
    ensures
        a == b,
{
    let init = TagScan::Scanning(text, 0);
    let na = choose|n: nat| #[trigger] scan_run(init, n, proper_name, name) == a;
    let nb = choose|n: nat| #[trigger] scan_run(init, n, proper_name, name) == b;
    if na <= nb {
        lemma_scan_run_stays(init, na, nb, proper_name, name);
    } else {
        lemma_scan_run_stays(init, nb, na, proper_name, name);
    }
}

proof fn lemma_scan_run_step(st: TagScan, n: nat, proper_name: bool, name: Seq<char>)
    ensures
        scan_run(st, n + 1, proper_name, name) == scan_step(
            scan_run(st, n, proper_name, name),
            proper_name,
            name,
        ),
    decreases n,
{
    let next = scan_step(st, proper_name, name);
    assert(scan_run(st, n + 1, proper_name, name) == scan_run(next, n, proper_name, name));
    if n > 0 {
        lemma_scan_run_step(next, (n - 1) as nat, proper_name, name);
        assert(((n - 1) as nat + 1) as nat == n);
        assert(scan_run(st, n, proper_name, name) == scan_run(next, (n - 1) as nat, proper_name, name));
    } else {
        assert(scan_run(next, 0, proper_name, name) == next);
        assert(scan_run(st, 0, proper_name, name) == st);
    }
}

proof fn lemma_find_char(s: Seq<char>, c: char, from: int)
    requires
        0 <= from,
    ensures
        find_char(s, c, from) matches Some(k) ==> from <= k < s.len() && s[k] == c,
        forall|m: int| from <= m < s.len() && s[m] == c ==> (find_char(s, c, from) matches Some(k)
            && k <= m),
    decreases s.len() - from,
{
    if from < s.len() && s[from] != c {
        lemma_find_char(s, c, from + 1);
    }
}

proof fn lemma_byte_len_take_next(s: Seq<char>, k: int)
    requires
        0 <= k < s.len(),
    ensures
        byte_len(s.take(k + 1)) == byte_len(s.take(k)) + char_width(s[k]),
{
    assert(s.take(k + 1).drop_last() == s.take(k));
}

proof fn lemma_byte_len_take_increasing(s: Seq<char>, a: int, b: int)
    requires
        0 <= a < b <= s.len(),
    ensures
        byte_len(s.take(a)) < byte_len(s.take(b)),
    decreases b - a,
{
    lemma_byte_len_take_next(s, b - 1);
    if a < b - 1 {
        lemma_byte_len_take_increasing(s, a, b - 1);
    }
}

proof fn lemma_char_at_byte(s: Seq<char>, k: int)
    requires
        0 <= k <= s.len(),
    ensures
        char_at_byte(s, byte_len(s.take(k)) as int) == Some(k),
{
    let i = byte_len(s.take(k)) as int;
    assert(0 <= k <= s.len() && byte_len(s.take(k)) == i);
    let j = choose|j: int| 0 <= j <= s.len() && #[trigger] byte_len(s.take(j)) == i;
    if j < k {
        lemma_byte_len_take_increasing(s, j, k);
    } else if k < j {
        lemma_byte_len_take_increasing(s, k, j);
    }
}

proof fn lemma_char_count_concat(a: Seq<char>, b: Seq<char>, c: char)
    ensures
        char_count(a + b, c) == char_count(a, c) + char_count(b, c),
    decreases b.len(),
{
    if b.len() > 0 {
        assert((a + b).drop_last() == a + b.drop_last());
        lemma_char_count_concat(a, b.drop_last(), c);
    } else {
        assert(a + b == a);
    }
}

proof fn lemma_char_count_none(s: Seq<char>, c: char)
    requires
        lacks(s, c),
    ensures
        char_count(s, c) == 0,
    decreases s.len(),
{
    if s.len() > 0 {
        lemma_char_count_none(s.drop_last(), c);
    }
}

proof fn lemma_byte_len_at_most(s: Seq<char>)
    ensures
        byte_len(s) <= 4 * s.len(),
    decreases s.len(),
{
    if s.len() > 0 {
        lemma_byte_len_at_most(s.drop_last());
    }
}

/// One expansion uses up a `c` of the text, for either brace `c`, when neither the name nor the
/// prefix holds one.
proof fn lemma_expansion_removes_brace(s: Seq<char>, start: int, end: int, r: Seq<char>, k: int, c: char)
    requires
        0 <= start < end < s.len(),
        s[start] == '{',
        c == '{' || c == '}',
        lacks(r, c),
        0 <= k < (s.take(start) + r + s.skip(end)).len(),
        (s.take(start) + r + s.skip(end))[k] == '}',
    ensures
        char_count((s.take(start) + r + s.skip(end)).remove(k), c) < char_count(s, c),
{
    let s1 = s.take(start) + r + s.skip(end);
    lemma_char_count_none(r, c);
    lemma_char_count_concat(s.take(start), r, c);
    lemma_char_count_concat(s.take(start) + r, s.skip(end), c);
    assert(s == s.take(start) + (seq![s[start]] + s.subrange(start + 1, end)) + s.skip(end));
    lemma_char_count_concat(s.take(start), seq![s[start]] + s.subrange(start + 1, end), c);
    lemma_char_count_concat(seq![s[start]], s.subrange(start + 1, end), c);
    lemma_char_count_concat(s.take(start) + (seq![s[start]] + s.subrange(start + 1, end)), s.skip(end), c);
    assert(seq![s[start]].drop_last() == Seq::<char>::empty());
    assert(s1 == s1.take(k) + seq![s1[k]] + s1.skip(k + 1));
    assert(s1.remove(k) == s1.take(k) + s1.skip(k + 1));
    lemma_char_count_concat(s1.take(k), seq![s1[k]], c);
    lemma_char_count_concat(s1.take(k) + seq![s1[k]], s1.skip(k + 1), c);
    lemma_char_count_concat(s1.take(k), s1.skip(k + 1), c);
    assert(seq![s1[k]].drop_last() == Seq::<char>::empty());
}

fn find_char_from(s: &str, c: char, from: usize) -> (res: Option<usize>)
    requires
        from <= s@.len(),
    ensures
        match res {
            Some(k) => find_char(s@, c, from as int) == Some(k as int),
            None => find_char(s@, c, from as int) is None,
        },
{
    let len = s.unicode_len();
    let mut j = from;
    while j < len
        invariant
            from <= j <= len,
            len == s@.len(),
            find_char(s@, c, from as int) == find_char(s@, c, j as int),
        decreases len - j,
    {
        if s.get_char(j) == c {
            return Some(j);
        }
        j = j + 1;
    }
    None
}

fn char_index_of_byte(s: &str, i: usize) -> (res: Option<usize>)
    ensures
        match res {
            Some(k) => char_at_byte(s@, i as int) == Some(k as int),
            None => char_at_byte(s@, i as int) is None,
        },
{
    let len = s.unicode_len();
    let mut k: usize = 0;
    let mut acc: usize = 0;
    while k < len
        invariant
            0 <= k <= len,
            len == s@.len(),
            acc == byte_len(s@.take(k as int)),
            acc <= i,
        decreases len - k,
    {
        if acc == i {
            proof {
                lemma_char_at_byte(s@, k as int);
            }
            return Some(k);
        }
        let w = char_len(s.get_char(k));
        if w > i - acc {
            proof {
                lemma_byte_len_take_next(s@, k as int);
                assert forall|m: int| 0 <= m <= s@.len() implies #[trigger] byte_len(s@.take(m)) != i by {
                    if m < k {
                        lemma_byte_len_take_increasing(s@, m, k as int);
                    } else if m > k + 1 {
                        lemma_byte_len_take_increasing(s@, k + 1, m);
                    }
                }
            }
            return None;
        }
        proof {
            lemma_byte_len_take_next(s@, k as int);
        }
        acc = acc + w;
        k = k + 1;
    }
    proof {
        assert(s@.take(len as int) == s@);
        if acc == i {
            lemma_char_at_byte(s@, k as int);
        } else {
            assert forall|m: int| 0 <= m <= s@.len() implies #[trigger] byte_len(s@.take(m)) != i by {
                if m < k {
                    lemma_byte_len_take_increasing(s@, m, k as int);
                }
            }
        }
    }
    if acc == i {
        Some(k)
    } else {
        None
    }
}

/// The number of bytes of the characters `from..to` of `s`.
fn byte_count(s: &str, from: usize, to: usize) -> (res: usize)
    requires
        from <= to <= s@.len(),
        byte_len(s@.subrange(from as int, to as int)) <= usize::MAX,
    ensures
        res == byte_len(s@.subrange(from as int, to as int)),
{
    let mut j = from;
    let mut acc: usize = 0;
    while j < to
        invariant
            from <= j <= to <= s@.len(),
            acc == byte_len(s@.subrange(from as int, j as int)),
            byte_len(s@.subrange(from as int, to as int)) <= usize::MAX,
        decreases to - j,
    {
        let ghost whole = s@.subrange(from as int, to as int);
        proof {
            assert(s@.subrange(from as int, j + 1) == whole.take(j + 1 - from));
            assert(s@.subrange(from as int, j as int) == whole.take(j - from));
            lemma_byte_len_take_next(whole, j - from);
            lemma_byte_len_prefix(whole, j + 1 - from);
        }
        acc = acc + char_len(s.get_char(j));
        j = j + 1;
    }
    acc
}

/// Whether the characters `from..to` of `s` spell `word`.
fn spells(s: &str, from: usize, to: usize, word: &str) -> (res: bool)
    requires
        from <= to <= s@.len(),
    ensures
        res == (s@.subrange(from as int, to as int) == word@),
{
    let n = word.unicode_len();
    if to - from != n {
        return false;
    }
    let mut j: usize = 0;
    while j < n
        invariant
            0 <= j <= n,
            n == word@.len(),
            to - from == n,
            from <= to <= s@.len(),
            forall|q: int| 0 <= q < j ==> s@[from + q] == word@[q],
        decreases n - j,
    {
        if s.get_char(from + j) != word.get_char(j) {
            assert(s@.subrange(from as int, to as int)[j as int] != word@[j as int]);
            return false;
        }
        j = j + 1;
    }
    assert(s@.subrange(from as int, to as int) == word@);
    true
}

/// The prefix that takes the place of the tag spelt by the characters `from..to` of `s`.
fn tag_prefix_of(s: &str, from: usize, to: usize, proper_name: bool) -> (res: Option<&'static str>)
    requires
        from <= to <= s@.len(),
    ensures
        match res {
            Some(p) => tag_prefix(proper_name, s@.subrange(from as int, to as int)) == Some(p@)
                && p@.len() <= 4 && lacks(p@, '{') && lacks(p@, '}'),
            None => tag_prefix(proper_name, s@.subrange(from as int, to as int)) is None,
        },
{
    proof {
        reveal_strlit("");
        reveal_strlit("The ");
        reveal_strlit("the ");
        reveal_strlit("A ");
        reveal_strlit("a ");
    }
    let article = if spells(s, from, to, "Address") {
        "The "
    } else if spells(s, from, to, "address") {
        "the "
    } else if spells(s, from, to, "Indirect") {
        "A "
    } else if spells(s, from, to, "indirect") {
        "a "
    } else {
        return None;
    };
    if proper_name {
        Some("")
    } else {
        Some(article)
    }
}

/// The tag `start..=end` of `s` replaced by `prefix` and `name`, as the scan expands it.
fn expand_tag(s: &str, start: usize, end: usize, prefix: &str, name: &str, Ghost(c): Ghost<char>) -> (res: (String, usize))
    requires
        start < end < s@.len(),
        s@[start as int] == '{',
        s@[end as int] == '}',
        prefix@.len() <= 4,
        c == '{' || c == '}',
        byte_len(name@) + 16 <= usize::MAX,
    ensures
        expansion(s@, start as int, end as int, prefix@ + name@) == TagScan::Scanning(
            res.0@,
            res.1 as int,
        ),
        lacks(prefix@, c) && lacks(name@, c) ==> char_count(res.0@, c) < char_count(s@, c),
{
    let len = s.unicode_len();
    let mut s1 = String::new();
    s1.append(s.substring_char(0, start));
    s1.append(prefix);
    s1.append(name);
    s1.append(s.substring_char(end, len));
    let ghost r = prefix@ + name@;
    assert(s1@ == s@.take(start as int) + r + s@.skip(end as int));
    proof {
        lemma_find_char(s1@, '}', start as int);
        assert(s1@[start + r.len()] == '}');
    }
    let k = match find_char_from(s1.as_str(), '}', start) {
        Some(k) => k,
        None => {
            assert(false);
            return (s1, 0);
        },
    };
    proof {
        assert(s1@.subrange(start as int, k as int) == r.take(k - start));
        lemma_byte_len_prefix(r, k - start);
        lemma_byte_len_concat(prefix@, name@);
        lemma_byte_len_at_most(prefix@);
    }
    let next = byte_count(s1.as_str(), start, k);
    let len1 = s1.as_str().unicode_len();
    let mut s2 = String::new();
    s2.append(s1.as_str().substring_char(0, k));
    s2.append(s1.as_str().substring_char(k + 1, len1));
    assert(s2@ == s1@.remove(k as int));
    proof {
        if lacks(prefix@, c) && lacks(name@, c) {
            assert forall|j: int| 0 <= j < r.len() implies r[j] != c by {
                if j >= prefix@.len() {
                    assert(r[j] == name@[j - prefix@.len()]);
                }
            }
            lemma_expansion_removes_brace(s@, start as int, end as int, r, k as int, c);
        }
    }
    (s2, next)
}

/// Expands the tags `{Address}`, `{address}`, `{Indirect}` and `{indirect}` of `text` into the
/// character's name: the name alone for a proper name, else behind "The ", "the ", "A " or "a ".
/// Other tags are stepped over. `None` where the scan would resume inside a character.
/// A name that holds both braces may make the scan go on for ever; such a name is taken only
/// where the scan of `text` comes to an end.
pub fn expand_noun_tags(text: &str, nouns: &Nouns) -> (res: Option<String>)
    requires
        byte_len(nouns.name@) + 16 <= usize::MAX,
        name_fits(nouns.name@) || scan_halts(text@, nouns.proper_name, nouns.name@),
    ensures
        match res {
            Some(r) => scan_ends_in(
                text@,
                nouns.proper_name,
                nouns.name@,
                TagScan::Finished(r@),
            ),
            None => scan_ends_in(text@, nouns.proper_name, nouns.name@, TagScan::Stuck),
        },
{
    let proper_name = nouns.proper_name;
    let name = nouns.name.as_str();
    let ghost init = TagScan::Scanning(text@, 0);
    let ghost guard: char = if lacks(name@, '{') { '{' } else { '}' };
    let ghost fits = name_fits(name@);
    let ghost n0: nat = if fits {
        0
    } else {
        choose|n: nat| !(#[trigger] scan_run(TagScan::Scanning(text@, 0), n, nouns.proper_name, nouns.name@) is Scanning)
    };
    let mut s = String::from_str(text);
    let mut ci: usize = 0;
    let ghost mut i: int = 0;
    let ghost mut n: nat = 0;
    assert(text@.take(0) == Seq::<char>::empty());
    loop
        invariant
            scan_run(init, n, proper_name, name@) == TagScan::Scanning(s@, i),
            0 <= ci <= s@.len(),
            byte_len(s@.take(ci as int)) == i,
            name@ == nouns.name@,
            proper_name == nouns.proper_name,
            init == TagScan::Scanning(text@, 0),
            guard == '{' || guard == '}',
            fits == name_fits(name@),
            fits ==> lacks(name@, guard),
            !fits ==> !(scan_run(init, n0, proper_name, name@) is Scanning) && n < n0,
            byte_len(name@) + 16 <= usize::MAX,
        decreases (if fits { char_count(s@, guard) as int } else { n0 - n }), (if fits { s@.len() - ci } else { 0 }),
    {
        proof {
            lemma_char_at_byte(s@, ci as int);
            lemma_scan_run_step(init, n, proper_name, name@);
        }
        let len = s.as_str().unicode_len();
        let start = match find_char_from(s.as_str(), '{', ci) {
            Some(start) => start,
            None => {
                assert(scan_run(init, n + 1, proper_name, name@) == TagScan::Finished(s@));
                return Some(s);
            },
        };
        proof {
            lemma_find_char(s@, '{', ci as int);
        }
        let end = match find_char_from(s.as_str(), '}', start) {
            Some(end) => end,
            None => {
                assert(scan_run(init, n + 1, proper_name, name@) == TagScan::Finished(s@));
                return Some(s);
            },
        };
        proof {
            lemma_find_char(s@, '}', start as int);
        }
        match tag_prefix_of(s.as_str(), start + 1, end, proper_name) {
            None => {
                proof {
                    n = n + 1;
                    i = byte_len(s@.take(end as int)) as int;
                    assert(scan_run(init, n, proper_name, name@) == TagScan::Scanning(s@, i));
                    if !fits && n >= n0 {
                        lemma_scan_run_stays(init, n0, n, proper_name, name@);
                    }
                }
                ci = end;
            },
            Some(prefix) => {
                let (s2, next) = expand_tag(s.as_str(), start, end, prefix, name, Ghost(guard));
                proof {
                    n = n + 1;
                    lemma_scan_run_step(init, n, proper_name, name@);
                }
                match char_index_of_byte(s2.as_str(), next) {
                    None => {
                        assert(scan_run(init, n + 1, proper_name, name@) == TagScan::Stuck);
                        return None;
                    },
                    Some(c2) => {
                        proof {
                            i = next as int;
                            if !fits && n >= n0 {
                                lemma_scan_run_stays(init, n0, n, proper_name, name@);
                            }
                        }
                        s = s2;
                        ci = c2;
                    },
                }
            },
        }
    }
}

/// The views of some strings.
pub open spec fn views_of(strs: Seq<&str>) -> Seq<Seq<char>> {
    strs.map_values(|t: &str| t@)
}

/// The pronoun tags, in the order of `pronoun_forms`. "they" makes an ideal default because it
/// has a unique word for all pronoun forms; `{are}`/`{Are}` give the state form ("it is cute" /
/// "they are cute") and `{s}` the verb form ("it pounces" / "they pounce").
pub open spec fn pronoun_tags() -> Seq<Seq<char>> {
    seq![
        "{they}"@, "{them}"@, "{their}"@, "{theirs}"@, "{themself}"@, "{are}"@,
        "{They}"@, "{Them}"@, "{Their}"@, "{Theirs}"@, "{Themself}"@, "{Are}"@, "{s}"@,
    ]
}

/// The words that take the place of the pronoun tags.
pub open spec fn pronoun_forms(pronouns: Pronouns) -> Seq<Seq<char>> {
    match pronouns {
        Pronouns::Female => seq![
            "she"@, "her"@, "her"@, "hers"@, "herself"@, "is"@,
            "She"@, "Her"@, "Her"@, "Hers"@, "Herself"@, "Is"@, "s"@,
        ],
        Pronouns::Male => seq![
            "he"@, "him"@, "his"@, "his"@, "himself"@, "is"@,
            "He"@, "Him"@, "His"@, "His"@, "Himself"@, "Is"@, "s"@,
        ],
        // Neutral pronouns stand for neutrality, not plurality, so "themself" is always right.
        Pronouns::Neutral => seq![
            "they"@, "them"@, "their"@, "theirs"@, "themself"@, "are"@,
            "They"@, "Them"@, "Their"@, "Theirs"@, "Themself"@, "Are"@, ""@,
        ],
        Pronouns::Object => seq![
            "it"@, "its"@, "its"@, "its"@, "itself"@, "is"@,
            "It"@, "Its"@, "Its"@, "Its"@, "Itself"@, "Is"@, "s"@,
        ],
    }
}

/// The grammatical cases that the pronoun tags stand for.
pub enum PronounCase {
    /// "they", "she"
    Subject,
    /// "them", "her"
    Object,
    /// "their", "her"
    Possessive,
    /// "theirs", "hers"
    Independent,
    /// "themself", "herself"
    Reflexive,
    /// The verb "to be" after the subject: "are", "is".
    Being,
}

/// The word for case `c` of a character with pronouns `p`, in lower case. (An object takes
/// "its" in every case but the subject and the reflexive.)
pub open spec fn pronoun_word(p: Pronouns, c: PronounCase) -> Seq<char> {
    match p {
        Pronouns::Female => match c {
            PronounCase::Subject => seq!['s', 'h', 'e'],
            PronounCase::Object => seq!['h', 'e', 'r'],
            PronounCase::Possessive => seq!['h', 'e', 'r'],
            PronounCase::Independent => seq!['h', 'e', 'r', 's'],
            PronounCase::Reflexive => seq!['h', 'e', 'r', 's', 'e', 'l', 'f'],
            PronounCase::Being => seq!['i', 's'],
        },
        Pronouns::Male => match c {
            PronounCase::Subject => seq!['h', 'e'],
            PronounCase::Object => seq!['h', 'i', 'm'],
            PronounCase::Possessive => seq!['h', 'i', 's'],
            PronounCase::Independent => seq!['h', 'i', 's'],
            PronounCase::Reflexive => seq!['h', 'i', 'm', 's', 'e', 'l', 'f'],
            PronounCase::Being => seq!['i', 's'],
        },
        Pronouns::Neutral => match c {
            PronounCase::Subject => seq!['t', 'h', 'e', 'y'],
            PronounCase::Object => seq!['t', 'h', 'e', 'm'],
            PronounCase::Possessive => seq!['t', 'h', 'e', 'i', 'r'],
            PronounCase::Independent => seq!['t', 'h', 'e', 'i', 'r', 's'],
            PronounCase::Reflexive => seq!['t', 'h', 'e', 'm', 's', 'e', 'l', 'f'],
            PronounCase::Being => seq!['a', 'r', 'e'],
        },
        Pronouns::Object => match c {
            PronounCase::Subject => seq!['i', 't'],
            PronounCase::Reflexive => seq!['i', 't', 's', 'e', 'l', 'f'],
            PronounCase::Being => seq!['i', 's'],
            _ => seq!['i', 't', 's'],
        },
    }
}

/// `w` with its first letter, if it is a lower-case ASCII letter, made upper case.
pub open spec fn capitalized(w: Seq<char>) -> Seq<char> {
    if w.len() > 0 && 97 <= w[0] as u32 <= 122 {
        w.update(0, ((w[0] as u32) - 32) as char)
    } else {
        w
    }
}

/// `w` in braces, as a tag.
pub open spec fn braced(w: Seq<char>) -> Seq<char> {
    seq!['{'] + w + seq!['}']
}

/// Each pronoun tag stands for one grammatical case: it is the neutral ("they") word of that
/// case in braces, and it is replaced by the word of that case for the character's pronouns;
/// the same tag capitalized, six places on, by that word capitalized. The last tag, `{s}`, is
/// the ending of a verb after the subject: none after "they", an "s" after any other subject.
pub proof fn lemma_pronoun_tags_take_their_case(p: Pronouns, c: PronounCase)
    ensures
        pronoun_tags().len() == 13,
        pronoun_forms(p).len() == 13,
        exists|k: int|
            0 <= k < 6 && #[trigger] pronoun_tags()[k] == braced(pronoun_word(Pronouns::Neutral, c))
                && pronoun_forms(p)[k] == pronoun_word(p, c) && pronoun_tags()[k + 6] == braced(
                capitalized(pronoun_word(Pronouns::Neutral, c)),
            ) && pronoun_forms(p)[k + 6] == capitalized(pronoun_word(p, c)),
        pronoun_tags()[12] == braced(seq!['s']),
        pronoun_forms(p)[12] == if p == Pronouns::Neutral {
            Seq::<char>::empty()
        } else {
            seq!['s']
        },
{
    reveal_strlit("");
    reveal_strlit("Are");
    reveal_strlit("He");
    reveal_strlit("Her");
    reveal_strlit("Hers");
    reveal_strlit("Herself");
    reveal_strlit("Him");
    reveal_strlit("Himself");
    reveal_strlit("His");
    reveal_strlit("Is");
    reveal_strlit("It");
    reveal_strlit("Its");
    reveal_strlit("Itself");
    reveal_strlit("She");
    reveal_strlit("Their");
    reveal_strlit("Theirs");
    reveal_strlit("Them");
    reveal_strlit("Themself");
    reveal_strlit("They");
    reveal_strlit("are");
    reveal_strlit("he");
    reveal_strlit("her");
    reveal_strlit("hers");
    reveal_strlit("herself");
    reveal_strlit("him");
    reveal_strlit("himself");
    reveal_strlit("his");
    reveal_strlit("is");
    reveal_strlit("it");
    reveal_strlit("its");
    reveal_strlit("itself");
    reveal_strlit("s");
    reveal_strlit("she");
    reveal_strlit("their");
    reveal_strlit("theirs");
    reveal_strlit("them");
    reveal_strlit("themself");
    reveal_strlit("they");
    reveal_strlit("{Are}");
    reveal_strlit("{Theirs}");
    reveal_strlit("{Their}");
    reveal_strlit("{Themself}");
    reveal_strlit("{Them}");
    reveal_strlit("{They}");
    reveal_strlit("{are}");
    reveal_strlit("{s}");
    reveal_strlit("{theirs}");
    reveal_strlit("{their}");
    reveal_strlit("{themself}");
    reveal_strlit("{them}");
    reveal_strlit("{they}");
    let k: int = match c {
        PronounCase::Subject => 0,
        PronounCase::Object => 1,
        PronounCase::Possessive => 2,
        PronounCase::Independent => 3,
        PronounCase::Reflexive => 4,
        PronounCase::Being => 5,
    };
    assert(pronoun_tags()[k] =~= braced(pronoun_word(Pronouns::Neutral, c)));
    assert(pronoun_forms(p)[k] =~= pronoun_word(p, c));
    assert(pronoun_tags()[k + 6] =~= braced(capitalized(pronoun_word(Pronouns::Neutral, c))));
    assert(pronoun_forms(p)[k + 6] =~= capitalized(pronoun_word(p, c)));
    assert(pronoun_tags()[12] =~= braced(seq!['s']));
    if p == Pronouns::Neutral {
        assert(pronoun_forms(p)[12] =~= Seq::<char>::empty());
    } else {
        assert(pronoun_forms(p)[12] =~= seq!['s']);
    }
}

fn pronoun_tag_table() -> (res: Vec<&'static str>)
    ensures
        views_of(res@) == pronoun_tags(),
        res@.len() == 13,
{
    let res = vec![
        "{they}", "{them}", "{their}", "{theirs}", "{themself}", "{are}",
        "{They}", "{Them}", "{Their}", "{Theirs}", "{Themself}", "{Are}", "{s}",
    ];
    assert(views_of(res@) == pronoun_tags());
    res
}

fn pronoun_form_table(pronouns: Pronouns) -> (res: Vec<&'static str>)
    ensures
        views_of(res@) == pronoun_forms(pronouns),
        res@.len() == 13,
{
    let res = match pronouns {
        Pronouns::Female => vec![
            "she", "her", "her", "hers", "herself", "is",
            "She", "Her", "Her", "Hers", "Herself", "Is", "s",
        ],
        Pronouns::Male => vec![
            "he", "him", "his", "his", "himself", "is",
            "He", "Him", "His", "His", "Himself", "Is", "s",
        ],
        Pronouns::Neutral => vec![
            "they", "them", "their", "theirs", "themself", "are",
            "They", "Them", "Their", "Theirs", "Themself", "Are", "",
        ],
        Pronouns::Object => vec![
            "it", "its", "its", "its", "itself", "is",
            "It", "Its", "Its", "Its", "Itself", "Is", "s",
        ],
    };
    assert(views_of(res@) == pronoun_forms(pronouns));
    res
}

/// What `haystack` becomes when every match of `patterns` that an `aho_corasick::AhoCorasick`
/// built from them (by `AhoCorasick::new`) finds is replaced, by `replace_all`, with the
/// replacement of the same index; `None` when the automaton cannot be built.
pub uninterp spec fn replaced_matches(
    haystack: Seq<char>,
    patterns: Seq<Seq<char>>,
    replacements: Seq<Seq<char>>,
) -> Option<Seq<char>>;

/// Builds an automaton with `aho_corasick::AhoCorasick::new(patterns)` and replaces the matches
/// in `haystack` with `AhoCorasick::replace_all`; the result is the named `replaced_matches`.
/// Where no pattern occurs in `haystack` there is nothing to replace, and `replace_all` gives
/// `haystack` back.
/// `replace_all` panics unless there are as many replacements as patterns, so that is required.
#[verifier::external_body]
fn replace_matches(haystack: &str, patterns: &[&str], replacements: &[&str]) -> (res: Option<String>)
    requires
        patterns@.len() == replacements@.len(),
    ensures
        match res {
            Some(r) => replaced_matches(haystack@, views_of(patterns@), views_of(replacements@))
                == Some(r@),
            None => replaced_matches(haystack@, views_of(patterns@), views_of(replacements@)) is None,
        },
        none_occurs(haystack@, views_of(patterns@)) ==> (res matches Some(r) ==> r@ == haystack@),
{
    match aho_corasick::AhoCorasick::new(patterns) {
        Ok(table) => Some(table.replace_all(haystack, replacements)),
        Err(_) => None,
    }
}

/// `s` without the leftmost non-overlapping occurrences of `p`, as `str::replace` with an empty
/// replacement leaves it.
pub open spec fn without_matches(s: Seq<char>, p: Seq<char>) -> Seq<char>
    decreases s.len(),
{
    if p.len() == 0 || s.len() < p.len() {
        s
    } else if s.take(p.len() as int) == p {
        without_matches(s.skip(p.len() as int), p)
    } else {
        seq![s[0]] + without_matches(s.skip(1), p)
    }
}

/// `str::replace(text, pattern, "")`: every non-overlapping match of `pattern`, taken from the
/// left, is removed.
#[verifier::external_body]
fn remove_matches(text: &str, pattern: &str) -> (res: String)
    ensures
        res@ == without_matches(text@, pattern@),
{
    text.replace(pattern, "")
}

/// Whether `res` is what replacing the nouns of `text` gives: the pronoun tags replaced by the
/// pronouns, then the address tags expanded; `None` where the table of pronoun tags cannot be
/// built or the expansion gets stuck.
pub open spec fn nouns_replaced(text: Seq<char>, nouns: Nouns, res: Option<String>) -> bool {
    match replaced_matches(text, pronoun_tags(), pronoun_forms(nouns.pronouns)) {
        None => res is None,
        Some(t) => match res {
            Some(r) => scan_ends_in(t, nouns.proper_name, nouns.name@, TagScan::Finished(r@)),
            None => scan_ends_in(t, nouns.proper_name, nouns.name@, TagScan::Stuck),
        },
    }
}

/// Whether a name can be put into text (see `name_fits`).
pub open spec fn fits_in_text(nouns: Nouns) -> bool {
    name_fits(nouns.name@)
}

/// Whether a name can be put into text (see `name_fits`).
pub fn can_be_put_in_text(nouns: &Nouns) -> (res: bool)
    ensures
        res == fits_in_text(*nouns),
{
    let name = nouns.name.as_str();
    let len = name.unicode_len();
    let mut bytes: usize = 0;
    let mut opens = false;
    let mut closes = false;
    let mut i: usize = 0;
    while i < len
        invariant
            0 <= i <= len,
            len == name@.len(),
            name@ == nouns.name@,
            bytes == byte_len(name@.take(i as int)),
            bytes + 16 <= usize::MAX,
            opens == exists|j: int| 0 <= j < i && name@[j] == '{',
            closes == exists|j: int| 0 <= j < i && name@[j] == '}',
        decreases len - i,
    {
        let c = name.get_char(i);
        proof {
            lemma_byte_len_take_next(name@, i as int);
        }
        let w = char_len(c);
        if bytes > usize::MAX - 16 - w {
            proof {
                lemma_byte_len_prefix(name@, i + 1);
            }
            return false;
        }
        if c == '{' {
            opens = true;
        }
        if c == '}' {
            closes = true;
        }
        bytes = bytes + w;
        i = i + 1;
    }
    assert(name@.take(len as int) == name@);
    !(opens && closes)
}

/// Whether the nouns can be put into `text`: the name fits in any text, or it is not too long
/// and the expansion of `text`, once its pronoun tags are replaced, comes to an end.
pub open spec fn fits_text(text: Seq<char>, nouns: Nouns) -> bool {
    ||| fits_in_text(nouns)
    ||| byte_len(nouns.name@) + 16 <= usize::MAX && match replaced_matches(
        text,
        pronoun_tags(),
        pronoun_forms(nouns.pronouns),
    ) {
        Some(t) => scan_halts(t, nouns.proper_name, nouns.name@),
        None => true,
    }
}

/// Replaces the pronoun tags of `text` (`{they}`, `{Their}`, `{s}` ...) by the pronouns of `nouns`,
/// then expands its address tags.
pub fn replace_nouns_in(text: &str, nouns: &Nouns) -> (res: Option<String>)
    requires
        fits_text(text@, *nouns),
    ensures
        nouns_replaced(text@, *nouns, res),
        none_occurs(text@, pronoun_tags()) && no_address_tags(text@) ==> (res matches Some(r) ==> r@
            == text@),
{
    let tags = pronoun_tag_table();
    let forms = pronoun_form_table(nouns.pronouns);
    match replace_matches(text, tags.as_slice(), forms.as_slice()) {
        None => None,
        Some(t) => {
            let res = expand_noun_tags(t.as_str(), nouns);
            proof {
                if none_occurs(text@, pronoun_tags()) && no_address_tags(text@) {
                    assert(t@ == text@);
                    lemma_untagged_text_unchanged(t@, nouns.proper_name, nouns.name@);
                    if res is Some {
                        lemma_scan_ends_unique(
                            t@,
                            nouns.proper_name,
                            nouns.name@,
                            TagScan::Finished(res->0@),
                            TagScan::Finished(t@),
                        );
                    }
                }
            }
            res
        },
    }
}

/// Text in which a character's nouns can be put.
pub trait StrExt {
    /// The characters of the text.
    spec fn text_view(&self) -> Seq<char>;

    /// Removes every occurrence of `prefix`, then replaces the nouns.
    fn replace_prefixed_nouns(&self, nouns: &Nouns, prefix: &str) -> (res: Option<String>)
        requires
            fits_text(without_matches(self.text_view(), prefix@), *nouns),
        ensures
            nouns_replaced(without_matches(self.text_view(), prefix@), *nouns, res),
    ;

    /// Replaces the pronoun tags by the pronouns of `nouns`, then expands the address tags.
    fn replace_nouns(&self, nouns: &Nouns) -> (res: Option<String>)
        requires
            fits_text(self.text_view(), *nouns),
        ensures
            nouns_replaced(self.text_view(), *nouns, res),
            none_occurs(self.text_view(), pronoun_tags()) && no_address_tags(self.text_view()) ==> (res matches Some(
                r,
            ) ==> r@ == self.text_view()),
    ;
}

impl StrExt for str {
    open spec fn text_view(&self) -> Seq<char> {
        self@
    }

    fn replace_prefixed_nouns(&self, nouns: &Nouns, prefix: &str) -> (res: Option<String>) {
        let text = remove_matches(self, prefix);
        replace_nouns_in(text.as_str(), nouns)
    }

    fn replace_nouns(&self, nouns: &Nouns) -> (res: Option<String>) {
        replace_nouns_in(self, nouns)
    }
}

impl StrExt for String {
    open spec fn text_view(&self) -> Seq<char> {
        self@
    }

    fn replace_prefixed_nouns(&self, nouns: &Nouns, prefix: &str) -> (res: Option<String>) {
        let text = remove_matches(self.as_str(), prefix);
        replace_nouns_in(text.as_str(), nouns)
    }

    fn replace_nouns(&self, nouns: &Nouns) -> (res: Option<String>) {
        replace_nouns_in(self.as_str(), nouns)
    }
}

/// No `'{'` of `text`, up to the first `'}'` after it, spells a tag that addresses a character.
pub open spec fn no_address_tags(text: Seq<char>) -> bool {
    forall|start: int|
        0 <= start < text.len() && text[start] == '{' ==> match #[trigger] find_char(text, '}', start) {
            Some(end) => tag_prefix(false, text.subrange(start + 1, end)) is None,
            None => true,
        }
}

/// Whether `p` occurs in `s`.
pub open spec fn occurs_in(s: Seq<char>, p: Seq<char>) -> bool {
    exists|i: int| 0 <= i && i + p.len() <= s.len() && #[trigger] s.subrange(i, i + p.len()) == p
}

/// None of `patterns` occurs in `s`.
pub open spec fn none_occurs(s: Seq<char>, patterns: Seq<Seq<char>>) -> bool {
    forall|k: int| 0 <= k < patterns.len() ==> !occurs_in(s, #[trigger] patterns[k])
}

proof fn lemma_untagged_from(text: Seq<char>, ci: int, proper_name: bool, name: Seq<char>)
    requires
        0 <= ci <= text.len(),
        no_address_tags(text),
    ensures
        exists|n: nat|
            #[trigger] scan_run(TagScan::Scanning(text, byte_len(text.take(ci)) as int), n, proper_name, name)
                == TagScan::Finished(text),
    decreases text.len() - ci,
{
    let st = TagScan::Scanning(text, byte_len(text.take(ci)) as int);
    lemma_char_at_byte(text, ci);
    lemma_find_char(text, '{', ci);
    assert(scan_run(st, 1, proper_name, name) == scan_run(scan_step(st, proper_name, name), 0, proper_name, name));
    match find_char(text, '{', ci) {
        None => {
            assert(scan_run(st, 1, proper_name, name) == TagScan::Finished(text));
        },
        Some(start) => {
            lemma_find_char(text, '}', start);
            match find_char(text, '}', start) {
                None => {
                    assert(scan_run(st, 1, proper_name, name) == TagScan::Finished(text));
                },
                Some(end) => {
                    assert(tag_prefix(false, text.subrange(start + 1, end)) is None);
                    assert(tag_prefix(proper_name, text.subrange(start + 1, end)) is None);
                    let next = TagScan::Scanning(text, byte_len(text.take(end)) as int);
                    assert(scan_step(st, proper_name, name) == next);
                    lemma_untagged_from(text, end, proper_name, name);
                    let n = choose|n: nat| #[trigger] scan_run(next, n, proper_name, name) == TagScan::Finished(text);
                    assert(scan_run(st, n + 1, proper_name, name) == scan_run(next, n, proper_name, name));
                }
            }
        },
    }
}

/// Text in which no tag addresses a character comes out of the expansion as it went in: other
/// brace groups, such as `{foo}`, are left as they are.
pub proof fn lemma_untagged_text_unchanged(text: Seq<char>, proper_name: bool, name: Seq<char>)
    requires
        no_address_tags(text),
    ensures
        scan_ends_in(text, proper_name, name, TagScan::Finished(text)),
{
    assert(text.take(0) == Seq::<char>::empty());
    lemma_untagged_from(text, 0, proper_name, name);
}

/// Replaces the nouns of `text` where the name fits in any text (see `name_fits`); `None`
/// for a name that does not, whose expansion of some texts would go on for ever.
pub fn replace_nouns_if_fitting(text: &str, nouns: &Nouns) -> (res: Option<String>)
    ensures
        fits_in_text(*nouns) ==> nouns_replaced(text@, *nouns, res),
        !fits_in_text(*nouns) ==> res is None,
{
    if can_be_put_in_text(nouns) {
        text.replace_nouns(nouns)
    } else {
        None
    }
}

} // verus!
