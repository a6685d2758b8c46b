//! Searching names for a term, without regard to case.
//!
//! A name matches a term when the term is a substring of the name's
//! lower-case form. The search itself runs over the UTF-8 bytes of the two
//! strings and gives byte offsets; that it finds the same as a search
//! character by character is proved below.

use vstd::prelude::*;
use vstd::utf8::*;

verus! {

/// The lower-case form of a string, as the standard library computes it from
/// the Unicode character database.
pub uninterp spec fn lowercase(s: Seq<char>) -> Seq<char>;

/// `str::to_lowercase` maps each character to its Unicode lower-case
/// equivalent. The mapping depends on the characters alone (no locale is
/// consulted); the result is given the name [`lowercase`] and nothing more is
/// claimed of it.
pub assume_specification[ str::to_lowercase ](s: &str) -> (lower: String)
    ensures
        lower@ == lowercase(s@),
;

/// `needle` stands in `hay` at byte offset `i`.
pub open spec fn occurs_at(hay: Seq<u8>, needle: Seq<u8>, i: int) -> bool {
    &&& 0 <= i
    &&& i + needle.len() <= hay.len()
    &&& hay.subrange(i, i + needle.len()) == needle
}

/// `needle` stands somewhere in `hay`.
pub open spec fn contains_bytes(hay: Seq<u8>, needle: Seq<u8>) -> bool {
    exists|i: int| occurs_at(hay, needle, i)
}

/// `i` is the least offset at which `needle` stands in `hay`.
pub open spec fn is_first_occurrence(hay: Seq<u8>, needle: Seq<u8>, i: int) -> bool {
    &&& occurs_at(hay, needle, i)
    &&& forall|j: int| 0 <= j < i ==> !occurs_at(hay, needle, j)
}

/// The least offset at which `needle` stands in `hay`, if there is one.
pub open spec fn first_occurrence(hay: Seq<u8>, needle: Seq<u8>) -> Option<int> {
    if contains_bytes(hay, needle) {
        Some(choose|i: int| is_first_occurrence(hay, needle, i))
    } else {
        None
    }
}

/// An offset that is a first occurrence is *the* first occurrence.
pub proof fn lemma_first_occurrence_unique(hay: Seq<u8>, needle: Seq<u8>, i: int)
    requires
        is_first_occurrence(hay, needle, i),
    ensures
        first_occurrence(hay, needle) == Some(i),
{
    let k = choose|k: int| is_first_occurrence(hay, needle, k);
    assert(is_first_occurrence(hay, needle, k));
    if k < i {
        assert(!occurs_at(hay, needle, k));
    }
    if i < k {
        assert(!occurs_at(hay, needle, i));
    }
}

/// Where a needle stands anywhere, it stands somewhere first.
pub proof fn lemma_first_occurrence_exists(hay: Seq<u8>, needle: Seq<u8>)
    ensures
        contains_bytes(hay, needle) <==> first_occurrence(hay, needle) is Some,
        first_occurrence(hay, needle) matches Some(i) ==> is_first_occurrence(hay, needle, i),
{
    if contains_bytes(hay, needle) {
        let w = choose|i: int| occurs_at(hay, needle, i);
        lemma_least_occurrence(hay, needle, w, 0);
    }
}

/// With an occurrence at `w` and none below `from`, there is a first
/// occurrence.
proof fn lemma_least_occurrence(hay: Seq<u8>, needle: Seq<u8>, w: int, from: int)
    requires
        occurs_at(hay, needle, w),
        0 <= from <= w,
        forall|j: int| 0 <= j < from ==> !occurs_at(hay, needle, j),
    ensures
        exists|i: int| is_first_occurrence(hay, needle, i),
    decreases w - from,
{
    if occurs_at(hay, needle, from) {
        assert(is_first_occurrence(hay, needle, from));
    } else {
        lemma_least_occurrence(hay, needle, w, from + 1);
    }
}

/// Whether `needle` stands in `hay` at offset `at`.
fn matches_at(hay: &[u8], needle: &[u8], at: usize) -> (r: bool)
    requires
        at + needle@.len() <= hay@.len(),
    ensures
        r == occurs_at(hay@, needle@, at as int),
{
    let n: usize = needle.len();
    let h: usize = hay.len();
    let mut k: usize = 0;
    while k < n
        invariant
            n == needle@.len(),
            h == hay@.len(),
            at + n <= h,
            k <= n,
            forall|j: int| 0 <= j < k ==> hay@[at + j] == needle@[j],
        decreases n - k,
    {
        if hay[at + k] != needle[k] {
            proof {
                let window = hay@.subrange(at as int, at + n);
                assert(window[k as int] == hay@[at + k]);
            }
            return false;
        }
        k += 1;
    }
    proof {
        assert(hay@.subrange(at as int, at + n) =~= needle@);
    }
    true
}

/// The least offset at which `needle` stands in `hay`.
///
/// An empty needle stands at offset 0 of every haystack.
pub fn find_bytes(hay: &[u8], needle: &[u8]) -> (r: Option<usize>)
    ensures
        match r {
            Some(i) => first_occurrence(hay@, needle@) == Some(i as int),
            None => first_occurrence(hay@, needle@) is None,
        },
{
    let h: usize = hay.len();
    let n: usize = needle.len();
    if n > h {
        return None;
    }
    let last: usize = h - n;
    let mut i: usize = 0;
    loop
        invariant
            h == hay@.len(),
            n == needle@.len(),
            last == h - n,
            i <= last,
            forall|j: int| 0 <= j < i ==> !occurs_at(hay@, needle@, j),
        ensures
            forall|j: int| 0 <= j <= last ==> !occurs_at(hay@, needle@, j),
        decreases last - i,
    {
        if matches_at(hay, needle, i) {
            proof {
                lemma_first_occurrence_unique(hay@, needle@, i as int);
            }
            return Some(i);
        }
        if i == last {
            break ;
        }
        i += 1;
    }
    None
}

/// `needle` is a substring of `hay`: its characters stand in `hay`, next to
/// each other and in order.
pub open spec fn contains(hay: Seq<char>, needle: Seq<char>) -> bool {
    exists|i: int| is_substring_at(hay, needle, i)
}

/// `needle` stands in `hay` from character `i` on.
pub open spec fn is_substring_at(hay: Seq<char>, needle: Seq<char>, i: int) -> bool {
    &&& 0 <= i
    &&& i + needle.len() <= hay.len()
    &&& hay.subrange(i, i + needle.len()) == needle
}

/// The bytes of two strings joined are the bytes of the one and then the
/// bytes of the other.
pub proof fn lemma_encode_concat(a: Seq<char>, b: Seq<char>)
    ensures
        encode_utf8(a + b) == encode_utf8(a) + encode_utf8(b),
    decreases a.len(),
{
    if a.len() == 0 {
        assert(a + b =~= b);
        assert(encode_utf8(a) + encode_utf8(b) =~= encode_utf8(b));
    } else {
        assert((a + b).drop_first() =~= a.drop_first() + b);
        lemma_encode_concat(a.drop_first(), b);
        assert(encode_utf8(a + b) =~= encode_utf8(a) + encode_utf8(b));
    }
}

/// Where well-formed bytes begin with well-formed bytes, what follows those
/// is well-formed too, and the whole decodes to the characters of the one
/// and then of the other.
proof fn lemma_decode_after_prefix(head: Seq<u8>, tail: Seq<u8>)
    requires
        valid_utf8(head),
        valid_utf8(head + tail),
    ensures
        valid_utf8(tail),
        decode_utf8(head + tail) == decode_utf8(head) + decode_utf8(tail),
    decreases head.len(),
{
    if head.len() == 0 {
        assert(head + tail =~= tail);
        assert(decode_utf8(head) + decode_utf8(tail) =~= decode_utf8(tail));
    } else {
        let whole = head + tail;
        assert(whole[0] == head[0]);
        assert(length_of_first_scalar(head) <= head.len());
        assert(forall|k: int| 0 <= k < head.len() ==> whole[k] == head[k]);
        assert(pop_first_scalar(whole) =~= pop_first_scalar(head) + tail);
        lemma_decode_after_prefix(pop_first_scalar(head), tail);
        assert(decode_first_scalar(whole) == decode_first_scalar(head));
        assert(decode_utf8(whole) =~= decode_utf8(head) + decode_utf8(tail));
    }
}

/// The bytes of a substring stand in the bytes of the string.
proof fn lemma_substring_in_bytes(hay: Seq<char>, needle: Seq<char>, i: int)
    requires
        is_substring_at(hay, needle, i),
    ensures
        contains_bytes(encode_utf8(hay), encode_utf8(needle)),
{
    let all = encode_utf8(hay);
    let part = encode_utf8(needle);
    let before = hay.subrange(0, i);
    let after = hay.subrange(i + needle.len(), hay.len() as int);
    assert(hay =~= before + needle + after);
    lemma_encode_concat(before + needle, after);
    lemma_encode_concat(before, needle);
    let at = encode_utf8(before).len() as int;
    assert(all.subrange(at, at + part.len()) =~= part);
    assert(occurs_at(all, part, at));
}

/// A string whose bytes stand in the bytes of another is a substring of it.
proof fn lemma_bytes_in_substring(hay: Seq<char>, needle: Seq<char>, at: int)
    requires
        occurs_at(encode_utf8(hay), encode_utf8(needle), at),
    ensures
        contains(hay, needle),
{
    let all = encode_utf8(hay);
    let part = encode_utf8(needle);
    if needle.len() == 0 {
        assert(hay.subrange(0, 0) =~= needle);
        assert(is_substring_at(hay, needle, 0));
    } else {
        encode_utf8_valid_utf8(hay);
        encode_utf8_valid_utf8(needle);
        encode_utf8_decode_utf8(hay);
        encode_utf8_decode_utf8(needle);
        assert(part.len() > 0) by {
            assert(encode_scalar(needle[0] as u32).len() > 0);
        }
        assert(all.subrange(at, at + part.len())[0] == all[at]);
        assert(is_char_boundary(all, at)) by {
            is_char_boundary_iff_not_is_continuation_byte(part, 0);
            is_char_boundary_iff_not_is_continuation_byte(all, at);
        }
        let head = all.subrange(0, at);
        let rest = all.subrange(at, all.len() as int);
        let tail = all.subrange(at + part.len(), all.len() as int);
        valid_utf8_split(all, at);
        decode_utf8_split(all, at);
        assert(rest =~= part + tail);
        lemma_decode_after_prefix(part, tail);
        let i = decode_utf8(head).len() as int;
        assert(hay =~= decode_utf8(head) + needle + decode_utf8(tail));
        assert(hay.subrange(i, i + needle.len()) =~= needle);
        assert(is_substring_at(hay, needle, i));
    }
}

/// A search over bytes finds what a search over characters finds: the bytes
/// of one string stand in the bytes of another exactly where the one is a
/// substring of the other.
pub proof fn lemma_contains_bytes_iff_substring(hay: Seq<char>, needle: Seq<char>)
    ensures
        contains_bytes(encode_utf8(hay), encode_utf8(needle)) <==> contains(hay, needle),
{
    if contains(hay, needle) {
        let i = choose|i: int| is_substring_at(hay, needle, i);
        lemma_substring_in_bytes(hay, needle, i);
    }
    if contains_bytes(encode_utf8(hay), encode_utf8(needle)) {
        let at = choose|at: int| occurs_at(encode_utf8(hay), encode_utf8(needle), at);
        lemma_bytes_in_substring(hay, needle, at);
    }
}

/// Whether the term is a substring of the lower-case form of a name. Both
/// arguments are taken as they are: the caller has lowered them.
pub fn contains_term(name_lower: &str, term_lower: &str) -> (r: bool)
    ensures
        r == contains(name_lower@, term_lower@),
{
    proof {
        lemma_contains_bytes_iff_substring(name_lower@, term_lower@);
        lemma_first_occurrence_exists(encode_utf8(name_lower@), encode_utf8(term_lower@));
    }
    find_bytes(name_lower.as_bytes(), term_lower.as_bytes()).is_some()
}

/// A name matches a term when the term is a substring of the name's
/// lower-case form. The term is expected in lower case already.
pub open spec fn name_matches(name: Seq<char>, term_lower: Seq<char>) -> bool {
    contains(lowercase(name), term_lower)
}

/// A name matches a term as the user typed it when it matches the term's
/// lower-case form.
pub open spec fn matches_ignoring_case(name: Seq<char>, term: Seq<char>) -> bool {
    name_matches(name, lowercase(term))
}

/// A search does not tell upper case from lower case: two names that differ
/// only in case match the same terms, and two terms that differ only in case
/// match the same names.
pub proof fn lemma_case_is_ignored(
    name: Seq<char>,
    other_name: Seq<char>,
    term: Seq<char>,
    other_term: Seq<char>,
)
    requires
        lowercase(name) == lowercase(other_name),
        lowercase(term) == lowercase(other_term),
    ensures
        matches_ignoring_case(name, term) == matches_ignoring_case(other_name, other_term),
{
}

/// Whether a directory name matches the (lower-case) search term.
pub fn matches_term(name: &str, term_lower: &str) -> (r: bool)
    ensures
        r == name_matches(name@, term_lower@),
{
    let lower = name.to_lowercase();
    contains_term(lower.as_str(), term_lower)
}

} // verus!
