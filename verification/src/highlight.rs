//! Marking the first occurrence of the search term in a name.
//!
//! The term is located in the lower-case form of the name; the span found
//! there is then cut out of the name as it was written, by byte offset, and
//! wrapped in a colour. Lowering a name may move its bytes, so the offsets are
//! checked against the name before it is cut: a name that cannot be cut there
//! is shown as it is.

use vstd::prelude::*;
use vstd::string::*;
use vstd::utf8::*;
use crate::text::{first_occurrence, lowercase, find_bytes};

verus! {

/// The escape sequence that switches to bright red.
pub open spec fn color_start() -> Seq<char> {
    seq!['\x1b', '[', '9', '1', 'm']
}

/// The escape sequence that switches the colour off again.
pub open spec fn color_reset() -> Seq<char> {
    seq!['\x1b', '[', '0', 'm']
}

/// A name cut in three: what stands before the marked span, the span, and
/// what follows it.
pub struct Spans {
    pub before: Seq<char>,
    pub matched: Seq<char>,
    pub after: Seq<char>,
}

impl Spans {
    /// The three parts joined, with no colour.
    pub open spec fn plain(self) -> Seq<char> {
        self.before + self.matched + self.after
    }

    /// The three parts joined, the middle one in colour.
    pub open spec fn colored(self) -> Seq<char> {
        self.before + color_start() + self.matched + color_reset() + self.after
    }
}

/// The bytes of `name` from `pos` on, `len` of them, begin and end between
/// two characters.
pub open spec fn cuts_cleanly(name: Seq<char>, pos: int, len: int) -> bool {
    let bytes = encode_utf8(name);
    &&& 0 <= pos
    &&& 0 <= len
    &&& pos + len <= bytes.len()
    &&& is_char_boundary(bytes, pos)
    &&& is_char_boundary(bytes, pos + len)
}

/// `name` cut before byte `pos` and after byte `pos + len`.
pub open spec fn spans_at(name: Seq<char>, pos: int, len: int) -> Spans {
    let bytes = encode_utf8(name);
    Spans {
        before: decode_utf8(bytes.subrange(0, pos)),
        matched: decode_utf8(bytes.subrange(pos, pos + len)),
        after: decode_utf8(bytes.subrange(pos + len, bytes.len() as int)),
    }
}

/// `name` with the `len` bytes from `pos` on in colour; `name` itself where it
/// cannot be cut there.
pub open spec fn highlighted_at(name: Seq<char>, pos: int, len: int) -> Seq<char> {
    if cuts_cleanly(name, pos, len) {
        spans_at(name, pos, len).colored()
    } else {
        name
    }
}

/// `name` with the first occurrence of the term in colour. The occurrence is
/// the first one in the lower-case form of the name; a name without one is
/// left as it is.
pub open spec fn highlighted(name: Seq<char>, term_lower: Seq<char>) -> Seq<char> {
    match first_occurrence(encode_utf8(lowercase(name)), encode_utf8(term_lower)) {
        Some(pos) => highlighted_at(name, pos, encode_utf8(term_lower).len() as int),
        None => name,
    }
}

/// A character boundary of a byte string is one of its suffix from an earlier
/// boundary on.
proof fn lemma_boundary_in_suffix(bytes: Seq<u8>, pos: int, idx: int)
    requires
        valid_utf8(bytes),
        0 <= pos <= idx <= bytes.len(),
        is_char_boundary(bytes, pos),
        is_char_boundary(bytes, idx),
    ensures
        valid_utf8(bytes.subrange(pos, bytes.len() as int)),
        is_char_boundary(bytes.subrange(pos, bytes.len() as int), idx - pos),
{
    let rest = bytes.subrange(pos, bytes.len() as int);
    valid_utf8_split(bytes, pos);
    if idx == pos {
    } else if idx == bytes.len() {
        is_char_boundary_start_end_of_seq(rest);
    } else {
        is_char_boundary_iff_not_is_continuation_byte(bytes, idx);
        is_char_boundary_iff_not_is_continuation_byte(rest, idx - pos);
        assert(rest[idx - pos] == bytes[idx]);
    }
}

/// Cutting a name and joining the parts again gives the name back: the three
/// spans hold every character of it, once and in order.
pub proof fn lemma_spans_keep_name(name: Seq<char>, pos: int, len: int)
    requires
        cuts_cleanly(name, pos, len),
    ensures
        spans_at(name, pos, len).plain() == name,
        encode_utf8(spans_at(name, pos, len).before).len() == pos,
        encode_utf8(spans_at(name, pos, len).matched).len() == len,
{
    let bytes = encode_utf8(name);
    let end = bytes.len() as int;
    let rest = bytes.subrange(pos, end);
    encode_utf8_valid_utf8(name);
    encode_utf8_decode_utf8(name);
    lemma_boundary_in_suffix(bytes, pos, pos + len);
    decode_utf8_split(bytes, pos);
    decode_utf8_split(rest, len);
    valid_utf8_split(bytes, pos);
    valid_utf8_split(rest, len);
    assert(rest.subrange(0, len) =~= bytes.subrange(pos, pos + len));
    assert(rest.subrange(len, rest.len() as int) =~= bytes.subrange(pos + len, end));
    decode_utf8_encode_utf8(bytes.subrange(0, pos));
    decode_utf8_encode_utf8(bytes.subrange(pos, pos + len));
    let sp = spans_at(name, pos, len);
    assert(sp.plain() =~= name);
}

/// The highlighted name is the name, or the name with the two escape
/// sequences put in: taking them out again leaves every character of the
/// name where it was.
pub proof fn lemma_highlight_keeps_name(name: Seq<char>, term_lower: Seq<char>)
    ensures
        highlighted(name, term_lower) == name || exists|sp: Spans|
            sp.plain() == name && #[trigger] sp.colored() == highlighted(name, term_lower),
{
    let found = first_occurrence(encode_utf8(lowercase(name)), encode_utf8(term_lower));
    if let Some(pos) = found {
        let len = encode_utf8(term_lower).len() as int;
        if cuts_cleanly(name, pos, len) {
            lemma_spans_keep_name(name, pos, len);
            let sp = spans_at(name, pos, len);
            assert(sp.plain() == name && sp.colored() == highlighted(name, term_lower));
        }
    }
}

/// A text without its colour sequences: read from the left, each of the two
/// sequences is passed over where it stands, and every other character is
/// kept.
pub open spec fn uncolored(text: Seq<char>) -> Seq<char>
    decreases text.len(),
{
    if text.len() == 0 {
        text
    } else if color_start().is_prefix_of(text) {
        uncolored(text.skip(5))
    } else if color_reset().is_prefix_of(text) {
        uncolored(text.skip(4))
    } else {
        seq![text[0]] + uncolored(text.skip(1))
    }
}

/// Taking colour sequences out makes no text longer.
proof fn lemma_uncolored_len(text: Seq<char>)
    ensures
        uncolored(text).len() <= text.len(),
    decreases text.len(),
{
    if text.len() == 0 {
    } else if color_start().is_prefix_of(text) {
        lemma_uncolored_len(text.skip(5));
    } else if color_reset().is_prefix_of(text) {
        lemma_uncolored_len(text.skip(4));
    } else {
        lemma_uncolored_len(text.skip(1));
    }
}

/// A text that holds no colour sequence does not begin with one, and holds
/// none after its first character.
proof fn lemma_plain_head(text: Seq<char>)
    requires
        uncolored(text) == text,
        text.len() > 0,
    ensures
        !color_start().is_prefix_of(text),
        !color_reset().is_prefix_of(text),
        uncolored(text.skip(1)) == text.skip(1),
{
    lemma_uncolored_len(text.skip(5));
    lemma_uncolored_len(text.skip(4));
    let rest = uncolored(text.skip(1));
    assert((seq![text[0]] + rest).skip(1) =~= rest);
}

/// A text that holds no colour sequence holds none in what follows any of
/// its beginnings.
proof fn lemma_plain_suffix(head: Seq<char>, tail: Seq<char>)
    requires
        uncolored(head + tail) == head + tail,
    ensures
        uncolored(tail) == tail,
    decreases head.len(),
{
    if head.len() == 0 {
        assert(head + tail =~= tail);
    } else {
        lemma_plain_head(head + tail);
        assert((head + tail).skip(1) =~= head.skip(1) + tail);
        lemma_plain_suffix(head.skip(1), tail);
    }
}

/// A colour sequence put in after `head`, where `head` and what followed it
/// held none, is found where it was put: nothing before it is taken for a
/// sequence.
proof fn lemma_uncolored_up_to_code(
    head: Seq<char>,
    code: Seq<char>,
    follows: Seq<char>,
    then: Seq<char>,
)
    requires
        code == color_start() || code == color_reset(),
        uncolored(head + follows) == head + follows,
    ensures
        uncolored(head + code + then) == head + uncolored(code + then),
    decreases head.len(),
{
    let shown = head + code + then;
    if head.len() == 0 {
        assert(shown =~= code + then);
        assert(head + uncolored(code + then) =~= uncolored(code + then));
    } else {
        let plain = head + follows;
        lemma_plain_head(plain);
        assert(plain.skip(1) =~= head.skip(1) + follows);
        assert(shown[0] == plain[0]);
        assert(shown[head.len() as int] == code[0]);
        if color_start().is_prefix_of(shown) {
            let lead = shown.subrange(0, 5);
            assert(lead[0] == shown[0] && lead[1] == shown[1] && lead[2] == shown[2] && lead[3]
                == shown[3] && lead[4] == shown[4]);
            if head.len() >= 5 {
                assert(plain.subrange(0, 5) =~= lead);
            } else {
                assert(lead[head.len() as int] == shown[head.len() as int]);
            }
            assert(false);
        }
        if color_reset().is_prefix_of(shown) {
            let lead = shown.subrange(0, 4);
            assert(lead[0] == shown[0] && lead[1] == shown[1] && lead[2] == shown[2] && lead[3]
                == shown[3]);
            if head.len() >= 4 {
                assert(plain.subrange(0, 4) =~= lead);
            } else {
                assert(lead[head.len() as int] == shown[head.len() as int]);
            }
            assert(false);
        }
        assert(shown.skip(1) =~= head.skip(1) + code + then);
        lemma_uncolored_up_to_code(head.skip(1), code, follows, then);
        assert(seq![shown[0]] + (head.skip(1) + uncolored(code + then)) =~= head + uncolored(
            code + then,
        ));
    }
}

/// Taking the colour out of a name that was cut and coloured gives the name
/// back, where the name held no colour sequence of its own.
pub proof fn lemma_uncolored_spans(spans: Spans)
    requires
        uncolored(spans.plain()) == spans.plain(),
    ensures
        uncolored(spans.colored()) == spans.plain(),
{
    let a = spans.before;
    let m = spans.matched;
    let b = spans.after;
    let start = color_start();
    let reset = color_reset();
    let middle = m + reset + b;
    assert(spans.plain() =~= a + (m + b));
    assert(spans.colored() =~= a + start + middle);
    lemma_uncolored_up_to_code(a, start, m + b, middle);
    assert(start.is_prefix_of(start + middle));
    assert((start + middle).skip(5) =~= middle);
    lemma_plain_suffix(a, m + b);
    lemma_uncolored_up_to_code(m, reset, b, b);
    assert(!start.is_prefix_of(reset + b)) by {
        if start.is_prefix_of(reset + b) {
            assert((reset + b).subrange(0, 5)[2] == (reset + b)[2]);
        }
    }
    assert(reset.is_prefix_of(reset + b));
    assert((reset + b).skip(4) =~= b);
    lemma_plain_suffix(m, b);
    assert(a + (m + b) =~= spans.plain());
}

/// Highlighting changes nothing but the colour: a highlighted name with the
/// colour sequences taken out is the name, character for character. This
/// holds of every name that holds no colour sequence itself.
pub proof fn lemma_highlight_uncolored(name: Seq<char>, term_lower: Seq<char>)
    requires
        uncolored(name) == name,
    ensures
        uncolored(highlighted(name, term_lower)) == name,
{
    let found = first_occurrence(encode_utf8(lowercase(name)), encode_utf8(term_lower));
    if let Some(pos) = found {
        let len = encode_utf8(term_lower).len() as int;
        if cuts_cleanly(name, pos, len) {
            lemma_spans_keep_name(name, pos, len);
            lemma_uncolored_spans(spans_at(name, pos, len));
        }
    }
}

/// The name with `len` bytes from byte `pos` on wrapped in colour. Where the
/// name cannot be cut at these offsets (they lie beyond its end, or inside a
/// character), it is returned unchanged.
pub fn highlight_at(name: &str, pos: usize, len: usize) -> (shown: String)
    ensures
        shown@ == highlighted_at(name@, pos as int, len as int),
{
    let total: usize = name.as_bytes().len();
    proof {
        encode_utf8_valid_utf8(name@);
    }
    if pos > total || len > total - pos {
        return name.to_owned();
    }
    if !name.is_char_boundary(pos) || !name.is_char_boundary(pos + len) {
        return name.to_owned();
    }
    let ghost bytes = encode_utf8(name@);
    let ghost tail = bytes.subrange(pos as int, total as int);
    proof {
        lemma_boundary_in_suffix(bytes, pos as int, pos + len);
    }
    let (before, rest) = name.split_at(pos);
    assert(rest.spec_bytes() == tail);
    let (matched, after) = rest.split_at(len);
    let mut shown = before.to_owned();
    shown.append("\x1b[91m");
    shown.append(matched);
    shown.append("\x1b[0m");
    shown.append(after);
    proof {
        reveal_strlit("\x1b[91m");
        reveal_strlit("\x1b[0m");
        assert("\x1b[91m"@ =~= color_start());
        assert("\x1b[0m"@ =~= color_reset());
        assert(tail.subrange(0, len as int) =~= bytes.subrange(pos as int, pos + len));
        assert(tail.subrange(len as int, tail.len() as int) =~= bytes.subrange(
            pos + len,
            total as int,
        ));
        encode_utf8_decode_utf8(before@);
        encode_utf8_decode_utf8(matched@);
        encode_utf8_decode_utf8(after@);
    }
    shown
}

/// The name with the first occurrence of the term wrapped in colour; the name
/// as it is where the term does not occur. The term is expected in lower
/// case.
pub fn highlight_substring(s: &str, substr_lower: &str) -> (shown: String)
    ensures
        shown@ == highlighted(s@, substr_lower@),
{
    let s_lower = s.to_lowercase();
    match find_bytes(s_lower.as_str().as_bytes(), substr_lower.as_bytes()) {
        Some(pos) => highlight_at(s, pos, substr_lower.as_bytes().len()),
        None => s.to_owned(),
    }
}

} // verus!
