use vstd::prelude::*;

verus! {

/// What `str::to_lowercase` gives for a string: the Unicode full lowercase
/// mapping of the whole text (a final capital sigma is mapped by its
/// context, every other character on its own).
pub uninterp spec fn unicode_lowercase(s: Seq<char>) -> Seq<char>;

/// Unicode `Alphabetic` or `Numeric` property, as `char::is_alphanumeric` tests it.
pub uninterp spec fn unicode_alphanumeric(c: char) -> bool;

/// Unicode `Alphabetic` property, as `char::is_alphabetic` tests it.
pub uninterp spec fn unicode_alphabetic(c: char) -> bool;

/// Unicode `Uppercase` property, as `char::is_uppercase` tests it.
pub uninterp spec fn unicode_uppercase(c: char) -> bool;

/// Unicode `Lowercase` property, as `char::is_lowercase` tests it.
pub uninterp spec fn unicode_lowercase_property(c: char) -> bool;

/// `str::to_lowercase`: the contract claims that the result is the
/// (deterministic) Unicode lowercase mapping of the argument's text,
/// and, since every character maps to one or more characters, that it is
/// no shorter than the argument.
#[verifier::external_body]
pub(crate) fn lowercase(s: &str) -> (r: String)
    ensures
        r@ == unicode_lowercase(s@),
        r@.len() >= s@.len(),
{
    s.to_lowercase()
}

/// `char::is_alphanumeric`: claimed to be the Unicode alphanumeric property.
#[verifier::external_body]
pub(crate) fn is_alphanumeric(c: char) -> (r: bool)
    ensures
        r == unicode_alphanumeric(c),
{
    c.is_alphanumeric()
}

/// `char::is_alphabetic`: claimed to be the Unicode alphabetic property.
#[verifier::external_body]
fn is_alphabetic(c: char) -> (r: bool)
    ensures
        r == unicode_alphabetic(c),
{
    c.is_alphabetic()
}

/// `char::is_uppercase`: claimed to be the Unicode uppercase property.
#[verifier::external_body]
fn is_uppercase(c: char) -> (r: bool)
    ensures
        r == unicode_uppercase(c),
{
    c.is_uppercase()
}

/// `char::is_lowercase`: claimed to be the Unicode lowercase property.
#[verifier::external_body]
fn is_lowercase(c: char) -> (r: bool)
    ensures
        r == unicode_lowercase_property(c),
{
    c.is_lowercase()
}

/// The characters of a string, in order.
pub fn chars_of(s: &str) -> (v: Vec<char>)
    ensures
        v@ == s@,
{
    let mut v: Vec<char> = Vec::new();
    for c in it: s.chars()
        invariant
            v@ == it.seq().take(it.index() as int),
    {
        v.push(c);
    }
    v
}


/// `needle` occurs in `hay` starting at character index `i`.
pub open spec fn occurs_at(hay: Seq<char>, needle: Seq<char>, i: int) -> bool {
    0 <= i && i + needle.len() <= hay.len() && hay.subrange(i, i + needle.len()) == needle
}

/// `needle` occurs in `hay` at index `i`, and neither the character just before
/// nor the one just after the occurrence is alphanumeric (string ends count as
/// boundaries).
pub open spec fn word_match_at(hay: Seq<char>, needle: Seq<char>, i: int) -> bool {
    &&& occurs_at(hay, needle, i)
    &&& (i == 0 || !unicode_alphanumeric(hay[i - 1]))
    &&& (i + needle.len() == hay.len() || !unicode_alphanumeric(hay[i + needle.len()]))
}

/// `needle` occurs as a whole word in `haystack`, case-insensitively: both are
/// lowercased, and the match must be bounded by non-alphanumeric characters or
/// by the ends of the text. An empty needle never matches.
pub open spec fn spec_contains_as_word(haystack: Seq<char>, needle: Seq<char>) -> bool {
    needle.len() > 0 && exists|i: int|
        word_match_at(unicode_lowercase(haystack), unicode_lowercase(needle), i)
}

pub(crate) fn matches_at(hay: &Vec<char>, needle: &Vec<char>, i: usize) -> (r: bool)
    requires
        i + needle.len() <= hay.len(),
    ensures
        r == occurs_at(hay@, needle@, i as int),
{
    let mut j: usize = 0;
    while j < needle.len()
        invariant
            i + needle.len() <= hay.len(),
            j <= needle.len(),
            forall|k: int| 0 <= k < j ==> hay@[i + k] == needle@[k],
        decreases needle.len() - j,
    {
        if hay[i + j] != needle[j] {
            assert(hay@.subrange(i as int, i + needle.len())[j as int] != needle@[j as int]);
            return false;
        }
        j += 1;
    }
    assert(hay@.subrange(i as int, i + needle.len()) =~= needle@);
    true
}

/// Does `needle` occur in `haystack` as a whole word, ignoring case?
/// A word boundary is a non-alphanumeric character or either end of the text.
pub fn contains_as_word(haystack: &str, needle: &str) -> (r: bool)
    ensures
        r == spec_contains_as_word(haystack@, needle@),
{
    if needle.is_empty() {
        return false;
    }
    let hl = lowercase(haystack);
    let nl = lowercase(needle);
    let h = chars_of(hl.as_str());
    let n = chars_of(nl.as_str());
    if n.len() > h.len() {
        assert forall|i: int| !word_match_at(h@, n@, i) by {}
        return false;
    }
    let last = h.len() - n.len();
    let mut i: usize = 0;
    loop
        invariant
            i <= last,
            last == h.len() - n.len(),
            n.len() <= h.len(),
            needle@.len() > 0,
            h@ == unicode_lowercase(haystack@),
            n@ == unicode_lowercase(needle@),
            forall|k: int| 0 <= k < i ==> !word_match_at(h@, n@, k),
        ensures
            i == last,
            forall|k: int| 0 <= k <= last ==> !word_match_at(h@, n@, k),
        decreases last - i,
    {
        if matches_at(&h, &n, i) {
            let before_ok = i == 0 || !is_alphanumeric(h[i - 1]);
            let after_ok = i + n.len() == h.len() || !is_alphanumeric(h[i + n.len()]);
            if before_ok && after_ok {
                assert(word_match_at(h@, n@, i as int));
                assert(word_match_at(unicode_lowercase(haystack@), unicode_lowercase(needle@), i as int));
                return true;
            }
        }
        assert(!word_match_at(h@, n@, i as int));
        if i == last {
            break;
        }
        i += 1;
    }
    assert forall|k: int| !word_match_at(h@, n@, k) by {
        if 0 <= k && k <= last {
        } else if k > last {
            assert(!occurs_at(h@, n@, k));
        }
    }
    false
}


/// Number of alphabetic characters in `s`.
pub open spec fn alphabetic_count(s: Seq<char>) -> nat
    decreases s.len(),
{
    if s.len() == 0 {
        0
    } else {
        alphabetic_count(s.drop_last()) + if unicode_alphabetic(s.last()) { 1nat } else { 0nat }
    }
}

/// Every alphabetic character of `s` is uppercase.
pub open spec fn letters_all_upper(s: Seq<char>) -> bool {
    forall|i: int| 0 <= i < s.len() && unicode_alphabetic(s[i]) ==> unicode_uppercase(s[i])
}

/// Every alphabetic character of `s` is lowercase.
pub open spec fn letters_all_lower(s: Seq<char>) -> bool {
    forall|i: int| 0 <= i < s.len() && unicode_alphabetic(s[i]) ==> unicode_lowercase_property(s[i])
}

/// Text written entirely in capitals: at least two letters, all uppercase.
pub open spec fn spec_is_all_caps(s: Seq<char>) -> bool {
    letters_all_upper(s) && alphabetic_count(s) >= 2
}

/// Text written entirely in small letters: at least three letters, all lowercase.
pub open spec fn spec_is_all_lower(s: Seq<char>) -> bool {
    letters_all_lower(s) && alphabetic_count(s) >= 3
}

proof fn lemma_alphabetic_count_take(s: Seq<char>, i: int)
    requires
        0 <= i < s.len(),
    ensures
        alphabetic_count(s.take(i + 1)) == alphabetic_count(s.take(i)) + if unicode_alphabetic(s[i]) {
            1nat
        } else {
            0nat
        },
{
    assert(s.take(i + 1).drop_last() =~= s.take(i));
}

/// Does the text contain at least two letters, all of them uppercase?
pub fn is_all_caps(s: &str) -> (r: bool)
    ensures
        r == spec_is_all_caps(s@),
{
    let cs = chars_of(s);
    let mut n: usize = 0;
    let mut i: usize = 0;
    while i < cs.len()
        invariant
            cs@ == s@,
            i <= cs.len(),
            n == alphabetic_count(cs@.take(i as int)),
            n <= i,
            letters_all_upper(cs@.take(i as int)),
        decreases cs.len() - i,
    {
        proof {
            lemma_alphabetic_count_take(cs@, i as int);
        }
        let c = cs[i];
        if is_alphabetic(c) {
            if !is_uppercase(c) {
                return false;
            }
            n += 1;
        }
        assert(letters_all_upper(cs@.take(i + 1))) by {
            assert forall|k: int| 0 <= k < i + 1 && unicode_alphabetic(#[trigger] cs@.take(i + 1)[k])
                implies unicode_uppercase(cs@.take(i + 1)[k]) by {
                if k < i {
                    assert(cs@.take(i + 1)[k] == cs@.take(i as int)[k]);
                }
            }
        }
        i += 1;
    }
    assert(cs@.take(i as int) =~= cs@);
    n >= 2
}

/// Does the text contain at least three letters, all of them lowercase?
pub fn is_all_lower(s: &str) -> (r: bool)
    ensures
        r == spec_is_all_lower(s@),
{
    let cs = chars_of(s);
    let mut n: usize = 0;
    let mut i: usize = 0;
    while i < cs.len()
        invariant
            cs@ == s@,
            i <= cs.len(),
            n == alphabetic_count(cs@.take(i as int)),
            n <= i,
            letters_all_lower(cs@.take(i as int)),
        decreases cs.len() - i,
    {
        proof {
            lemma_alphabetic_count_take(cs@, i as int);
        }
        let c = cs[i];
        if is_alphabetic(c) {
            if !is_lowercase(c) {
                return false;
            }
            n += 1;
        }
        assert(letters_all_lower(cs@.take(i + 1))) by {
            assert forall|k: int| 0 <= k < i + 1 && unicode_alphabetic(#[trigger] cs@.take(i + 1)[k])
                implies unicode_lowercase_property(cs@.take(i + 1)[k]) by {
                if k < i {
                    assert(cs@.take(i + 1)[k] == cs@.take(i as int)[k]);
                }
            }
        }
        i += 1;
    }
    assert(cs@.take(i as int) =~= cs@);
    n >= 3
}


/// Unicode `White_Space` property, as `char::is_whitespace` tests it.
pub uninterp spec fn unicode_whitespace(c: char) -> bool;

/// `char::is_whitespace`: claimed to be the Unicode `White_Space` property.
#[verifier::external_body]
pub(crate) fn is_whitespace(c: char) -> (r: bool)
    ensures
        r == unicode_whitespace(c),
{
    c.is_whitespace()
}

/// The text is empty once surrounding whitespace is trimmed, i.e. it holds
/// only whitespace.
pub open spec fn spec_is_blank(s: Seq<char>) -> bool {
    forall|i: int| 0 <= i < s.len() ==> unicode_whitespace(#[trigger] s[i])
}

/// Whether the text is empty after trimming whitespace.
pub fn is_blank(s: &str) -> (r: bool)
    ensures
        r == spec_is_blank(s@),
{
    let cs = chars_of(s);
    let mut i: usize = 0;
    while i < cs.len()
        invariant
            i <= cs.len(),
            cs@ == s@,
            forall|k: int| 0 <= k < i ==> unicode_whitespace(#[trigger] cs@[k]),
        decreases cs.len() - i,
    {
        if !is_whitespace(cs[i]) {
            return false;
        }
        i += 1;
    }
    true
}

} // verus!
