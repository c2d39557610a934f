//! Byte-string utilities: the ordinal (byte-wise lexicographic) order used
//! to sort channel names, and detection of the archive trigger command in a
//! message body.

use vstd::prelude::*;

verus! {

/// Strict lexicographic order on byte sequences: the order of the first
/// differing byte, with a proper prefix sorting before its extensions.
/// On UTF-8 encoded names this coincides with case-sensitive ordinal
/// comparison of the underlying strings.
pub open spec fn lex_lt(a: Seq<u8>, b: Seq<u8>) -> bool
    decreases a.len(),
{
    if b.len() == 0 {
        false
    } else if a.len() == 0 {
        true
    } else if a[0] < b[0] {
        true
    } else if a[0] > b[0] {
        false
    } else {
        lex_lt(a.drop_first(), b.drop_first())
    }
}

/// No sequence sorts strictly before itself.
pub proof fn lemma_lex_lt_irreflexive(a: Seq<u8>)
    ensures
        !lex_lt(a, a),
    decreases a.len(),
{
    if a.len() > 0 {
        lemma_lex_lt_irreflexive(a.drop_first());
    }
}

/// The order is transitive.
pub proof fn lemma_lex_lt_transitive(a: Seq<u8>, b: Seq<u8>, c: Seq<u8>)
    requires
        lex_lt(a, b),
        lex_lt(b, c),
    ensures
        lex_lt(a, c),
    decreases c.len(),
{
    if a.len() > 0 && b.len() > 0 && c.len() > 0 {
        if a[0] == b[0] && b[0] == c[0] {
            lemma_lex_lt_transitive(a.drop_first(), b.drop_first(), c.drop_first());
        }
    }
}

/// Whether `b` is an ASCII whitespace byte (space, tab, line feed, vertical
/// tab, form feed, carriage return).
pub open spec fn is_space(b: u8) -> bool {
    b == 32 || (9 <= b && b <= 13)
}

/// The byte length of the Unicode whitespace code point that `s` begins
/// with, as UTF-8, or 0 when it begins with none.  The multi-byte code
/// points are the White_Space set: next line, no-break space, ogham space
/// mark, the en-quad through hair-space run, the line and paragraph
/// separators, the narrow no-break and medium mathematical spaces, and the
/// ideographic space.
pub open spec fn space_prefix(s: Seq<u8>) -> int {
    if s.len() >= 1 && is_space(s[0]) {
        1
    } else if s.len() >= 2 && s[0] == 0xC2 && (s[1] == 0x85 || s[1] == 0xA0) {
        2
    } else if s.len() >= 3 && s[0] == 0xE1 && s[1] == 0x9A && s[2] == 0x80 {
        3
    } else if s.len() >= 3 && s[0] == 0xE2 && s[1] == 0x80 && ((0x80 <= s[2] && s[2] <= 0x8A)
        || s[2] == 0xA8 || s[2] == 0xA9 || s[2] == 0xAF) {
        3
    } else if s.len() >= 3 && s[0] == 0xE2 && s[1] == 0x81 && s[2] == 0x9F {
        3
    } else if s.len() >= 3 && s[0] == 0xE3 && s[1] == 0x80 && s[2] == 0x80 {
        3
    } else {
        0
    }
}

/// The byte length of the Unicode whitespace code point that `s` ends with,
/// as UTF-8, or 0 when it ends with none.
pub open spec fn space_suffix(s: Seq<u8>) -> int {
    let n = s.len() as int;
    if n >= 1 && is_space(s[n - 1]) {
        1
    } else if n >= 2 && s[n - 2] == 0xC2 && (s[n - 1] == 0x85 || s[n - 1] == 0xA0) {
        2
    } else if n >= 3 && s[n - 3] == 0xE1 && s[n - 2] == 0x9A && s[n - 1] == 0x80 {
        3
    } else if n >= 3 && s[n - 3] == 0xE2 && s[n - 2] == 0x80 && ((0x80 <= s[n - 1] && s[n - 1]
        <= 0x8A) || s[n - 1] == 0xA8 || s[n - 1] == 0xA9 || s[n - 1] == 0xAF) {
        3
    } else if n >= 3 && s[n - 3] == 0xE2 && s[n - 2] == 0x81 && s[n - 1] == 0x9F {
        3
    } else if n >= 3 && s[n - 3] == 0xE3 && s[n - 2] == 0x80 && s[n - 1] == 0x80 {
        3
    } else {
        0
    }
}

/// `s` with leading and trailing Unicode whitespace removed, matching what
/// trimming the decoded string does on well-formed UTF-8.
pub open spec fn trimmed(s: Seq<u8>) -> Seq<u8>
    decreases s.len(),
{
    if space_prefix(s) > 0 {
        trimmed(s.skip(space_prefix(s)))
    } else if space_suffix(s) > 0 {
        trimmed(s.take(s.len() - space_suffix(s)))
    } else {
        s
    }
}

/// The archive command, `!archive`, as bytes.
pub open spec fn trigger_bytes() -> Seq<u8> {
    seq![33u8, 97u8, 114u8, 99u8, 104u8, 105u8, 118u8, 101u8]
}

/// Whether a message body, once trimmed, is exactly the archive command.
pub open spec fn is_trigger(s: Seq<u8>) -> bool {
    trimmed(s) == trigger_bytes()
}

/// Whether `b` is an ASCII whitespace byte.
pub fn byte_is_space(b: u8) -> (r: bool)
    ensures
        r == is_space(b),
{
    b == 32 || (9 <= b && b <= 13)
}

/// Ordinal comparison of two names: true exactly when `a` sorts strictly
/// before `b`.
pub fn bytes_lt(a: &Vec<u8>, b: &Vec<u8>) -> (r: bool)
    ensures
        r == lex_lt(a@, b@),
{
    let mut i: usize = 0;
    assert(a@.skip(0) =~= a@);
    assert(b@.skip(0) =~= b@);
    while i < a.len() && i < b.len()
        invariant
            0 <= i <= a.len(),
            0 <= i <= b.len(),
            lex_lt(a@, b@) == lex_lt(a@.skip(i as int), b@.skip(i as int)),
        decreases a.len() - i,
    {
        let x = a[i];
        let y = b[i];
        assert(a@.skip(i as int)[0] == a@[i as int]);
        assert(b@.skip(i as int)[0] == b@[i as int]);
        if x < y {
            return true;
        }
        if x > y {
            return false;
        }
        assert(a@.skip(i as int).drop_first() =~= a@.skip(i as int + 1));
        assert(b@.skip(i as int).drop_first() =~= b@.skip(i as int + 1));
        i = i + 1;
    }
    if i == a.len() {
        assert(a@.skip(i as int).len() == 0);
        a.len() < b.len()
    } else {
        assert(b@.skip(i as int).len() == 0);
        false
    }
}

/// Whether two names are byte-for-byte equal.
pub fn bytes_eq(a: &Vec<u8>, b: &Vec<u8>) -> (r: bool)
    ensures
        r == (a@ == b@),
{
    if a.len() != b.len() {
        return false;
    }
    let n = a.len();
    let mut i: usize = 0;
    while i < n
        invariant
            0 <= i <= n,
            n == a@.len(),
            n == b@.len(),
            forall|j: int| 0 <= j < i ==> a@[j] == b@[j],
        decreases n - i,
    {
        if a[i] != b[i] {
            return false;
        }
        i = i + 1;
    }
    proof {
        assert(a@ =~= b@);
    }
    true
}

/// The byte length of the whitespace code point `content[lo..hi]` begins
/// with, or 0.
fn space_prefix_at(content: &Vec<u8>, lo: usize, hi: usize) -> (k: usize)
    requires
        lo <= hi <= content@.len(),
    ensures
        k == space_prefix(content@.subrange(lo as int, hi as int)),
{
    let len = hi - lo;
    proof {
        let sub = content@.subrange(lo as int, hi as int);
        if len >= 1 {
            assert(sub[0] == content@[lo as int]);
        }
        if len >= 2 {
            assert(sub[1] == content@[lo as int + 1]);
        }
        if len >= 3 {
            assert(sub[2] == content@[lo as int + 2]);
        }
    }
    if len >= 1 && byte_is_space(content[lo]) {
        return 1;
    }
    if len >= 2 && content[lo] == 0xC2 && (content[lo + 1] == 0x85 || content[lo + 1] == 0xA0) {
        return 2;
    }
    if len >= 3 {
        let b0 = content[lo];
        let b1 = content[lo + 1];
        let b2 = content[lo + 2];
        if b0 == 0xE1 && b1 == 0x9A && b2 == 0x80 {
            return 3;
        }
        if b0 == 0xE2 && b1 == 0x80 && ((0x80 <= b2 && b2 <= 0x8A) || b2 == 0xA8 || b2 == 0xA9
            || b2 == 0xAF) {
            return 3;
        }
        if b0 == 0xE2 && b1 == 0x81 && b2 == 0x9F {
            return 3;
        }
        if b0 == 0xE3 && b1 == 0x80 && b2 == 0x80 {
            return 3;
        }
    }
    0
}

/// The byte length of the whitespace code point `content[lo..hi]` ends
/// with, or 0.
fn space_suffix_at(content: &Vec<u8>, lo: usize, hi: usize) -> (k: usize)
    requires
        lo <= hi <= content@.len(),
    ensures
        k == space_suffix(content@.subrange(lo as int, hi as int)),
{
    let len = hi - lo;
    proof {
        let sub = content@.subrange(lo as int, hi as int);
        if len >= 1 {
            assert(sub[len as int - 1] == content@[hi as int - 1]);
        }
        if len >= 2 {
            assert(sub[len as int - 2] == content@[hi as int - 2]);
        }
        if len >= 3 {
            assert(sub[len as int - 3] == content@[hi as int - 3]);
        }
    }
    if len >= 1 && byte_is_space(content[hi - 1]) {
        return 1;
    }
    if len >= 2 && content[hi - 2] == 0xC2 && (content[hi - 1] == 0x85 || content[hi - 1]
        == 0xA0) {
        return 2;
    }
    if len >= 3 {
        let b0 = content[hi - 3];
        let b1 = content[hi - 2];
        let b2 = content[hi - 1];
        if b0 == 0xE1 && b1 == 0x9A && b2 == 0x80 {
            return 3;
        }
        if b0 == 0xE2 && b1 == 0x80 && ((0x80 <= b2 && b2 <= 0x8A) || b2 == 0xA8 || b2 == 0xA9
            || b2 == 0xAF) {
            return 3;
        }
        if b0 == 0xE2 && b1 == 0x81 && b2 == 0x9F {
            return 3;
        }
        if b0 == 0xE3 && b1 == 0x80 && b2 == 0x80 {
            return 3;
        }
    }
    0
}

/// Whether the trimmed message body is exactly the archive command.
pub fn is_trigger_content(content: &Vec<u8>) -> (r: bool)
    ensures
        r == is_trigger(content@),
{
    let n = content.len();
    let mut lo: usize = 0;
    let mut hi: usize = n;
    proof {
        assert(content@.subrange(0, n as int) =~= content@);
    }
    loop
        invariant
            0 <= lo <= hi <= n,
            n == content@.len(),
            trimmed(content@) == trimmed(content@.subrange(lo as int, hi as int)),
        ensures
            0 <= lo <= hi <= n,
            n == content@.len(),
            trimmed(content@) == content@.subrange(lo as int, hi as int),
        decreases hi - lo,
    {
        let p = space_prefix_at(content, lo, hi);
        if p > 0 {
            proof {
                let sub = content@.subrange(lo as int, hi as int);
                assert(sub.skip(p as int) =~= content@.subrange(lo as int + p, hi as int));
            }
            lo = lo + p;
        } else {
            let q = space_suffix_at(content, lo, hi);
            if q == 0 {
                proof {
                    let sub = content@.subrange(lo as int, hi as int);
                    assert(trimmed(sub) == sub);
                }
                break;
            }
            proof {
                let sub = content@.subrange(lo as int, hi as int);
                assert(sub.take(sub.len() - q) =~= content@.subrange(
                    lo as int,
                    hi as int - q,
                ));
            }
            hi = hi - q;
        }
    }
    if hi - lo != 8 {
        assert(trimmed(content@).len() != trigger_bytes().len());
        return false;
    }
    if content[lo] != 33 {
        assert(trimmed(content@)[0] != trigger_bytes()[0]);
        return false;
    }
    if content[lo + 1] != 97 {
        assert(trimmed(content@)[1] != trigger_bytes()[1]);
        return false;
    }
    if content[lo + 2] != 114 {
        assert(trimmed(content@)[2] != trigger_bytes()[2]);
        return false;
    }
    if content[lo + 3] != 99 {
        assert(trimmed(content@)[3] != trigger_bytes()[3]);
        return false;
    }
    if content[lo + 4] != 104 {
        assert(trimmed(content@)[4] != trigger_bytes()[4]);
        return false;
    }
    if content[lo + 5] != 105 {
        assert(trimmed(content@)[5] != trigger_bytes()[5]);
        return false;
    }
    if content[lo + 6] != 118 {
        assert(trimmed(content@)[6] != trigger_bytes()[6]);
        return false;
    }
    if content[lo + 7] != 101 {
        assert(trimmed(content@)[7] != trigger_bytes()[7]);
        return false;
    }
    assert(trimmed(content@) =~= trigger_bytes());
    true
}

} // verus!
