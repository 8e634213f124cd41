use vstd::prelude::*;

verus! {

/// The longest accepted index name, in characters.
pub const MAX_INDEX_UID_LEN: usize = 400;

/// A character that may appear in an index name: an ASCII letter or digit,
/// `-` or `_`.
pub open spec fn uid_char(c: char) -> bool {
    ('a' <= c && c <= 'z') || ('A' <= c && c <= 'Z') || ('0' <= c && c <= '9') || c == '-' || c
        == '_'
}

/// A well-formed index name: non-empty, at most `MAX_INDEX_UID_LEN`
/// characters, each of them a `uid_char`.
pub open spec fn valid_index_uid(s: Seq<char>) -> bool {
    0 < s.len() <= MAX_INDEX_UID_LEN && forall|i: int| 0 <= i < s.len() ==> #[trigger] uid_char(s[i])
}

/// Tells whether `c` may appear in an index name.
pub fn is_uid_char(c: char) -> (r: bool)
    ensures
        r == uid_char(c),
{
    ('a' <= c && c <= 'z') || ('A' <= c && c <= 'Z') || ('0' <= c && c <= '9') || c == '-' || c
        == '_'
}

/// Tells whether `name` is a well-formed index name.
pub fn is_valid_index_uid(name: &str) -> (r: bool)
    ensures
        r == valid_index_uid(name@),
{
    let n = name.unicode_len();
    if n == 0 || n > MAX_INDEX_UID_LEN {
        return false;
    }
    let mut i: usize = 0;
    while i < n
        invariant
            n == name@.len(),
            i <= n,
            forall|j: int| 0 <= j < i ==> #[trigger] uid_char(name@[j]),
        decreases n - i,
    {
        if !is_uid_char(name.get_char(i)) {
            return false;
        }
        i = i + 1;
    }
    true
}

} // verus!
