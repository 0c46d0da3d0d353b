//! The one label-normalization rule.

use vstd::prelude::*;

use crate::text::{chars_of, string_push};

verus! {

/// Whether a character has the Unicode `White_Space` property, which is
/// what `char::is_whitespace` answers: the ASCII tab, line feed, vertical
/// tab, form feed, carriage return and space, next line, no-break space, the
/// Ogham space mark, the en quad through the hair space, the line and
/// paragraph separators, the narrow no-break space, the medium mathematical
/// space and the ideographic space.
pub open spec fn char_is_whitespace(c: char) -> bool {
    let n = c as u32;
    ||| 0x09 <= n <= 0x0D
    ||| n == 0x20
    ||| n == 0x85
    ||| n == 0xA0
    ||| n == 0x1680
    ||| 0x2000 <= n <= 0x200A
    ||| n == 0x2028
    ||| n == 0x2029
    ||| n == 0x202F
    ||| n == 0x205F
    ||| n == 0x3000
}

/// What `char::to_lowercase` yields for a character: its Unicode lowercase
/// mapping, one or more characters.
pub uninterp spec fn char_to_lowercase(c: char) -> Seq<char>;

/// Whether the character is whitespace, as [`char_is_whitespace`] lists.
fn is_whitespace(c: char) -> (r: bool)
    ensures
        r == char_is_whitespace(c),
{
    let n = c as u32;
    (0x09 <= n && n <= 0x0D) || n == 0x20 || n == 0x85 || n == 0xA0 || n == 0x1680 || (0x2000
        <= n && n <= 0x200A) || n == 0x2028 || n == 0x2029 || n == 0x202F || n == 0x205F || n
        == 0x3000
}

/// Calls `char::to_lowercase` and collects what it yields. The contract claims
/// that the result is a function of the character, named
/// [`char_to_lowercase`], and, as std documents, that it has at least one
/// character; the Unicode case tables themselves are left unstated.
#[verifier::external_body]
fn to_lowercase(c: char) -> (r: Vec<char>)
    ensures
        r@ == char_to_lowercase(c),
        r@.len() >= 1,
{
    c.to_lowercase().collect()
}

/// The normalization of a character sequence read left to right: the
/// characters so far normalized, and whether a word separator is pending.
/// Whitespace runs between words collapse to one ASCII space, whitespace at
/// either end disappears, and every other character is replaced by its
/// lowercase mapping.
pub open spec fn normalize_scan(s: Seq<char>) -> (Seq<char>, bool)
    decreases s.len(),
{
    if s.len() == 0 {
        (Seq::empty(), false)
    } else {
        let (out, pending) = normalize_scan(s.drop_last());
        let c = s.last();
        if char_is_whitespace(c) {
            (out, out.len() > 0)
        } else {
            let sep = if pending {
                out.push(' ')
            } else {
                out
            };
            (sep + char_to_lowercase(c), false)
        }
    }
}

/// The canonical form of a label: trimmed, inner whitespace runs collapsed
/// to one space, every character lowercased.
pub open spec fn normalized(s: Seq<char>) -> Seq<char> {
    normalize_scan(s).0
}

/// Canonical form of a label: trim, collapse internal whitespace runs to a
/// single ASCII space, Unicode lowercase. No Unicode normalization form is
/// applied, so composed and decomposed forms of a character stay distinct.
/// An empty result means the label is invalid.
pub fn normalize_label(label: &str) -> (out: String)
    ensures
        out@ == normalized(label@),
        (out@.len() == 0) == (forall|k: int|
            0 <= k < label@.len() ==> #[trigger] char_is_whitespace(label@[k])),
{
    let cs = chars_of(label);
    let mut out = String::new();
    let mut pending = false;
    let mut i: usize = 0;
    while i < cs.len()
        invariant
            i <= cs@.len(),
            cs@ == label@,
            (out@, pending) == normalize_scan(cs@.take(i as int)),
            (out@.len() == 0) == (forall|k: int|
                0 <= k < i ==> #[trigger] char_is_whitespace(cs@[k])),
        decreases cs@.len() - i,
    {
        let c = cs[i];
        assert(cs@.take(i + 1).drop_last() =~= cs@.take(i as int));
        if is_whitespace(c) {
            pending = !out.as_str().is_empty();
        } else {
            if pending {
                string_push(&mut out, ' ');
            }
            let low = to_lowercase(c);
            let mut j: usize = 0;
            let ghost base = out@;
            while j < low.len()
                invariant
                    j <= low@.len(),
                    out@ == base + low@.take(j as int),
                decreases low@.len() - j,
            {
                string_push(&mut out, low[j]);
                assert(low@.take(j + 1) =~= low@.take(j as int).push(low@[j as int]));
                j = j + 1;
            }
            assert(low@.take(low@.len() as int) =~= low@);
            assert(!char_is_whitespace(cs@[i as int]));
            pending = false;
        }
        i = i + 1;
    }
    assert(cs@.take(cs@.len() as int) =~= cs@);
    out
}

/// Each character's lowercase mapping, in order.
pub open spec fn lowered(s: Seq<char>) -> Seq<char>
    decreases s.len(),
{
    if s.len() == 0 {
        Seq::empty()
    } else {
        lowered(s.drop_last()) + char_to_lowercase(s.last())
    }
}

/// Scanning characters none of which is whitespace lowercases each in turn
/// and leaves no separator pending.
proof fn lemma_scan_without_whitespace(s: Seq<char>)
    requires
        forall|k: int| 0 <= k < s.len() ==> !#[trigger] char_is_whitespace(s[k]),
    ensures
        normalize_scan(s) == (lowered(s), false),
    decreases s.len(),
{
    if s.len() > 0 {
        let r = s.drop_last();
        assert forall|k: int| 0 <= k < r.len() implies !#[trigger] char_is_whitespace(r[k]) by {
            assert(r[k] == s[k]);
        }
        lemma_scan_without_whitespace(r);
        assert(!char_is_whitespace(s[s.len() - 1]));
    }
}

/// Normalization trims and collapses whitespace only: the ASCII space and
/// control whitespace (tab through carriage return) are whitespace, and no
/// visible ASCII character (letters, digits, punctuation such as the hyphen)
/// is, so a label made of visible ASCII characters normalizes to the
/// lowercase mapping of each character, in order, none dropped or merged.
pub proof fn law_normalize_keeps_visible_ascii(s: Seq<char>)
    requires
        forall|k: int| 0 <= k < s.len() ==> 0x21 <= (#[trigger] s[k]) as u32 <= 0x7E,
    ensures
        normalized(s) == lowered(s),
        forall|c: char| 0x21 <= c as u32 <= 0x7E ==> !#[trigger] char_is_whitespace(c),
        forall|c: char|
            (c as u32 == 0x20 || 0x09 <= c as u32 <= 0x0D) ==> #[trigger] char_is_whitespace(c),
{
    assert forall|k: int| 0 <= k < s.len() implies !#[trigger] char_is_whitespace(s[k]) by {
        assert(0x21 <= s[k] as u32 <= 0x7E);
    }
    lemma_scan_without_whitespace(s);
}

} // verus!
