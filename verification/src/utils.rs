//! The lexical cursor: stateless helpers that look at what is left of the input, strip the
//! whitespace around it and split off its next significant character.

use std::collections::HashMap;
use std::hash::Hash;
use vstd::prelude::*;
use vstd::std_specs::hash::obeys_key_model;

verus! {

/// Whether `c` has the Unicode property `White_Space`, as `char::is_whitespace` reports it.
pub uninterp spec fn white_space(c: char) -> bool;

/// `char::is_whitespace`: tells whether the character has the Unicode property
/// `White_Space`. The property is a table of the Unicode character database, so the
/// contract gives the answer a name instead of spelling the table out.
#[verifier::external_body]
fn is_whitespace(c: char) -> (b: bool)
    ensures
        b == white_space(c),
{
    c.is_whitespace()
}

/// `String::push`: appends one character to the string.
#[verifier::external_body]
pub(crate) fn push_char(s: &mut String, c: char)
    ensures
        final(s)@ == old(s)@.push(c),
{
    s.push(c);
}

/// For each character of `s`, whether it is whitespace.
pub open spec fn blanks(s: Seq<char>) -> Seq<bool> {
    Seq::new(s.len(), |i: int| white_space(s[i]))
}

/// How many set flags `flags` starts with.
pub open spec fn leading_run(flags: Seq<bool>) -> nat
    decreases flags.len(),
{
    if flags.len() > 0 && flags.first() {
        1 + leading_run(flags.drop_first())
    } else {
        0
    }
}

/// How many set flags `flags` ends with.
pub open spec fn trailing_run(flags: Seq<bool>) -> nat
    decreases flags.len(),
{
    if flags.len() > 0 && flags.last() {
        1 + trailing_run(flags.drop_last())
    } else {
        0
    }
}

/// Where the significant part of a text lies, given which of its characters are blank:
/// it starts after the leading run of blanks and ends before the trailing run of what
/// follows them. The two bounds meet where everything is blank.
pub open spec fn trim_range(blank: Seq<bool>) -> (nat, nat) {
    let start = leading_run(blank);
    (start, (blank.len() - trailing_run(blank.skip(start as int))) as nat)
}

/// `s` without the whitespace around it.
pub open spec fn trimmed(s: Seq<char>) -> Seq<char> {
    let (start, end) = trim_range(blanks(s));
    s.subrange(start as int, end as int)
}

/// What follows the first `index` characters of `s`, trimmed; nothing if `s` is shorter.
pub open spec fn rest_after(s: Seq<char>, index: int) -> Seq<char> {
    if 0 <= index <= s.len() {
        trimmed(s.skip(index))
    } else {
        Seq::empty()
    }
}

/// Whether the UTF-8 form of `s` takes at most one byte: `s` is empty or a single ASCII
/// character.
pub open spec fn fits_one_byte(s: Seq<char>) -> bool {
    s.len() == 0 || (s.len() == 1 && s[0] as u32 <= 0x7f)
}

/// The next significant character of `s` and what follows it.
///
/// The character is the first one of the trimmed input, if there is any. The remainder is
/// absent when the trimmed input takes at most one byte; otherwise it is what follows the
/// character, trimmed again.
pub open spec fn pulled(s: Seq<char>) -> (Option<char>, Option<Seq<char>>) {
    let t = trimmed(s);
    (
        if t.len() > 0 {
            Some(t[0])
        } else {
            None
        },
        if fits_one_byte(t) {
            None
        } else {
            Some(rest_after(t, 1))
        },
    )
}

/// The map that holds the pairs of `entries`: of two pairs with the same key, the later one
/// counts.
pub open spec fn pairs_map<K, V>(entries: Seq<(K, V)>) -> Map<K, V>
    decreases entries.len(),
{
    if entries.len() == 0 {
        Map::empty()
    } else {
        pairs_map(entries.drop_last()).insert(entries.last().0, entries.last().1)
    }
}

/// The characters of an optional string; none for an absent one.
pub open spec fn opt_view(string: Option<String>) -> Option<Seq<char>> {
    match string {
        Some(string) => Some(string@),
        None => None,
    }
}

/// Whether no whitespace stands at either end of `s`.
pub open spec fn is_trimmed(s: Seq<char>) -> bool {
    s.len() > 0 ==> !white_space(s.first()) && !white_space(s.last())
}

/// A leading run ends within the flags, covers set flags only and stops at an unset one.
pub proof fn lemma_leading_run(flags: Seq<bool>)
    ensures
        leading_run(flags) <= flags.len(),
        forall|i: int| 0 <= i < leading_run(flags) ==> #[trigger] flags[i],
        leading_run(flags) < flags.len() ==> !flags[leading_run(flags) as int],
    decreases flags.len(),
{
    if flags.len() > 0 && flags.first() {
        let tail = flags.drop_first();
        lemma_leading_run(tail);
        assert forall|i: int| 0 <= i < leading_run(flags) implies #[trigger] flags[i] by {
            if i > 0 {
                assert(flags[i] == tail[i - 1]);
            }
        }
    }
}

/// A trailing run starts within the flags, covers set flags only and stops at an unset
/// one.
pub proof fn lemma_trailing_run(flags: Seq<bool>)
    ensures
        trailing_run(flags) <= flags.len(),
        forall|i: int|
            flags.len() - trailing_run(flags) <= i < flags.len() ==> #[trigger] flags[i],
        trailing_run(flags) < flags.len() ==> !flags[flags.len() - trailing_run(flags) - 1],
    decreases flags.len(),
{
    if flags.len() > 0 && flags.last() {
        let front = flags.drop_last();
        lemma_trailing_run(front);
        assert forall|i: int|
            flags.len() - trailing_run(flags) <= i < flags.len() implies #[trigger] flags[i] by {
            if i < flags.len() - 1 {
                assert(flags[i] == front[i]);
            }
        }
    }
}

/// The bounds of the significant part lie within the text, in order, and where they
/// differ a character that is not blank stands at each of them.
pub proof fn lemma_trim_range(blank: Seq<bool>)
    ensures
        trim_range(blank).0 <= trim_range(blank).1 <= blank.len(),
        trim_range(blank).0 < trim_range(blank).1 ==> !blank[trim_range(blank).0 as int]
            && !blank[trim_range(blank).1 - 1],
        blank.len() > 0 && !blank.first() && !blank.last() ==> trim_range(blank) == (
            0nat,
            blank.len(),
        ),
{
    let start = leading_run(blank);
    lemma_leading_run(blank);
    let tail = blank.skip(start as int);
    lemma_trailing_run(tail);
    if start < blank.len() {
        assert(tail[0] == blank[start as int]);
        assert(!tail[tail.len() - trailing_run(tail) - 1]);
    }
    if blank.len() > 0 && !blank.first() && !blank.last() {
        assert(tail =~= blank);
    }
}

/// Trimming only removes characters, leaves no whitespace at either end, and changes
/// nothing where there was none.
pub proof fn lemma_trimmed(s: Seq<char>)
    ensures
        trimmed(s).len() <= s.len(),
        is_trimmed(trimmed(s)),
        is_trimmed(s) ==> trimmed(s) == s,
{
    lemma_trim_range(blanks(s));
    if is_trimmed(s) {
        assert(trimmed(s) =~= s);
    }
}

/// Nothing is left of a text after trimming exactly when all of its characters are
/// whitespace.
pub proof fn lemma_trimmed_empty(s: Seq<char>)
    ensures
        trimmed(s).len() == 0 <==> forall|i: int|
            0 <= i < s.len() ==> white_space(#[trigger] s[i]),
{
    let blank = blanks(s);
    let start = leading_run(blank);
    let tail = blank.skip(start as int);
    lemma_leading_run(blank);
    lemma_trailing_run(tail);
    lemma_trim_range(blank);
    if trimmed(s).len() == 0 {
        assert forall|i: int| 0 <= i < s.len() implies white_space(#[trigger] s[i]) by {
            if i < start {
                assert(blank[i]);
            } else {
                assert(tail[i - start]);
            }
        }
    }
    if forall|i: int| 0 <= i < s.len() ==> white_space(#[trigger] s[i]) {
        if start < blank.len() {
            assert(white_space(s[start as int]));
            assert(blank[start as int]);
        }
    }
}

/// A remainder is trimmed and no longer than what it was cut from.
pub proof fn lemma_rest_after(s: Seq<char>, index: int)
    ensures
        is_trimmed(rest_after(s, index)),
        0 <= index <= s.len() ==> rest_after(s, index).len() <= s.len() - index,
{
    if 0 <= index <= s.len() {
        lemma_trimmed(s.skip(index));
    }
}

/// What `pulled` hands out: a character only from a non-empty input, a remainder only
/// together with a character, and that remainder trimmed and strictly shorter than the
/// input.
pub proof fn lemma_pulled(s: Seq<char>)
    ensures
        pulled(s).0 is Some ==> s.len() > 0,
        pulled(s).1 is Some ==> pulled(s).0 is Some,
        pulled(s).1 matches Some(rest) ==> rest.len() < s.len() && is_trimmed(rest),
{
    lemma_trimmed(s);
    lemma_rest_after(trimmed(s), 1);
}

/// Finds the significant part of a text from the blank flags of its characters: the
/// position after the leading blanks, and the position where the trailing blanks of the
/// rest begin.
pub fn trim_bounds(blank: &Vec<bool>) -> (r: (usize, usize))
    ensures
        r.0 == trim_range(blank@).0,
        r.1 == trim_range(blank@).1,
        r.0 <= r.1 <= blank@.len(),
{
    let n = blank.len();
    let mut start: usize = 0;
    assert(blank@.skip(0) =~= blank@);
    while start < n && blank[start]
        invariant
            start <= n,
            n == blank@.len(),
            leading_run(blank@) == start + leading_run(blank@.skip(start as int)),
        decreases n - start,
    {
        proof {
            assert(blank@.skip(start as int).drop_first() =~= blank@.skip(start + 1));
        }
        start += 1;
    }
    let ghost tail = blank@.skip(start as int);
    let mut end: usize = n;
    assert(tail.subrange(0, end - start) =~= tail);
    while end > start && blank[end - 1]
        invariant
            start <= end <= n,
            n == blank@.len(),
            tail == blank@.skip(start as int),
            trailing_run(tail) == (n - end) + trailing_run(tail.subrange(0, end - start)),
        decreases end,
    {
        proof {
            assert(tail.subrange(0, end - start).drop_last() =~= tail.subrange(
                0,
                end - 1 - start,
            ));
        }
        end -= 1;
    }
    (start, end)
}

/// The input without the whitespace around it.
fn trim(s: &str) -> (r: &str)
    ensures
        r@ == trimmed(s@),
{
    let mut blank: Vec<bool> = Vec::new();
    for c in it: s.chars()
        invariant
            it.seq() == s@,
            blank@ == blanks(s@).take(it.index() as int),
    {
        blank.push(is_whitespace(c));
        proof {
            assert(blank@ =~= blanks(s@).take(it.index() + 1));
        }
    }
    proof {
        assert(blank@ =~= blanks(s@));
    }
    let (start, end) = trim_bounds(&blank);
    s.substring_char(start, end)
}

/// An absent string counts as the empty one.
pub fn opt_to_string(string: Option<String>) -> (r: String)
    ensures
        r@ == match string {
            Some(string) => string@,
            None => Seq::<char>::empty(),
        },
{
    match string {
        Some(string) => string,
        None => String::new(),
    }
}

/// The character at position `index`, counted in characters from zero.
pub fn get_at(s: &String, index: usize) -> (r: Option<char>)
    ensures
        r == if index < s@.len() {
            Some(s@[index as int])
        } else {
            None
        },
{
    let text = s.as_str();
    if index < text.unicode_len() {
        Some(text.get_char(index))
    } else {
        None
    }
}

/// What follows the first `index` characters of `s`, without the whitespace around it.
pub fn get_rest(s: &String, index: usize) -> (r: String)
    ensures
        r@ == rest_after(s@, index as int),
{
    let text = s.as_str();
    let n = text.unicode_len();
    if index <= n {
        trim(text.substring_char(index, n)).to_owned()
    } else {
        String::new()
    }
}

/// Splits the next significant character off the input.
///
/// Returns the first character of the trimmed input and, unless the trimmed input takes at
/// most one byte, what follows that character (trimmed as well).
pub fn pull(s: &String) -> (r: (Option<char>, Option<String>))
    ensures
        r.0 == pulled(s@).0,
        opt_view(r.1) == pulled(s@).1,
{
    let t = trim(s.as_str());
    let n = t.unicode_len();
    if n == 0 {
        (None, None)
    } else {
        let first = t.get_char(0);
        if n == 1 && first as u32 <= 0x7f {
            (Some(first), None)
        } else {
            (Some(first), Some(trim(t.substring_char(1, n)).to_owned()))
        }
    }
}

/// Collects the pairs of `array` into a hash map; of two pairs with the same key, the later
/// one counts.
///
/// The contract speaks of key types whose hashing and equality agree with `==`; for those
/// the map is exactly [`pairs_map`] of the array.
pub fn array_to_hash_map<T: Copy + Eq + Hash, R: Copy>(array: &[(T, R)]) -> (m: HashMap<T, R>)
    ensures
        obeys_key_model::<T>() ==> m@ == pairs_map(array@),
{
    broadcast use vstd::std_specs::hash::group_hash_axioms;

    let mut m: HashMap<T, R> = HashMap::new();
    let mut i: usize = 0;
    while i < array.len()
        invariant
            i <= array.len(),
            obeys_key_model::<T>() ==> m@ == pairs_map(array@.take(i as int)),
        decreases array.len() - i,
    {
        let (key, value) = array[i];
        m.insert(key, value);
        proof {
            assert(array@.take(i + 1).drop_last() =~= array@.take(i as int));
        }
        i += 1;
    }
    proof {
        assert(array@.take(array.len() as int) =~= array@);
    }
    m
}

} // verus!
