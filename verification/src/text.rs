//! Character-level utilities shared by the parsers: trimming, splitting,
//! decoding, and recognizers for the numeric literals the measurement format
//! carries.

use vstd::prelude::*;

verus! {

/// Whitespace recognized by the trimming done throughout the parsers.
pub open spec fn is_space_char(c: char) -> bool {
    c == ' ' || c == '\t' || c == '\r' || c == '\n'
}

/// Executable mirror of `is_space_char`.
pub fn is_space(c: char) -> (r: bool)
    ensures
        r == is_space_char(c),
{
    c == ' ' || c == '\t' || c == '\r' || c == '\n'
}

/// A sequence with its leading whitespace removed.
pub open spec fn trim_start(s: Seq<char>) -> Seq<char>
    decreases s.len(),
{
    if s.len() > 0 && is_space_char(s[0]) {
        trim_start(s.drop_first())
    } else {
        s
    }
}

/// A sequence with its trailing whitespace removed.
pub open spec fn trim_end(s: Seq<char>) -> Seq<char>
    decreases s.len(),
{
    if s.len() > 0 && is_space_char(s.last()) {
        trim_end(s.drop_last())
    } else {
        s
    }
}

/// A sequence with whitespace removed from both ends.
pub open spec fn trim_spec(s: Seq<char>) -> Seq<char> {
    trim_end(trim_start(s))
}

proof fn lemma_trim_start_is_subrange(s: Seq<char>, lo: int)
    requires
        0 <= lo <= s.len(),
        forall|k: int| 0 <= k < lo ==> is_space_char(s[k]),
        lo == s.len() || !is_space_char(s[lo]),
    ensures
        trim_start(s) =~= s.subrange(lo, s.len() as int),
    decreases lo,
{
    if lo == 0 {
        if s.len() > 0 && is_space_char(s[0]) {
        } else {
            assert(trim_start(s) == s);
        }
    } else {
        let t = s.drop_first();
        lemma_trim_start_is_subrange(t, lo - 1);
        assert(trim_start(s) == trim_start(t));
        assert(t.subrange(lo - 1, t.len() as int) =~= s.subrange(lo, s.len() as int));
    }
}

proof fn lemma_trim_end_is_subrange(s: Seq<char>, hi: int)
    requires
        0 <= hi <= s.len(),
        forall|k: int| hi <= k < s.len() ==> is_space_char(s[k]),
        hi == 0 || !is_space_char(s[hi - 1]),
    ensures
        trim_end(s) =~= s.subrange(0, hi),
    decreases s.len() - hi,
{
    if hi == s.len() {
        if s.len() > 0 && is_space_char(s.last()) {
            assert(false);
        } else {
            assert(trim_end(s) =~= s.subrange(0, hi));
        }
    } else {
        let t = s.drop_last();
        lemma_trim_end_is_subrange(t, hi);
        assert(trim_end(s) == trim_end(t));
        assert(t.subrange(0, hi) =~= s.subrange(0, hi));
    }
}

/// Copies `s[from..to]` into a fresh vector.
pub fn subvec(s: &[char], from: usize, to: usize) -> (r: Vec<char>)
    requires
        from <= to <= s@.len(),
    ensures
        r@ =~= s@.subrange(from as int, to as int),
{
    let mut r: Vec<char> = Vec::new();
    let mut i: usize = from;
    while i < to
        invariant
            from <= i <= to <= s@.len(),
            r@ =~= s@.subrange(from as int, i as int),
        decreases to - i,
    {
        r.push(s[i]);
        i = i + 1;
    }
    r
}

/// Removes whitespace from both ends of a character sequence.
pub fn trim_chars(s: &[char]) -> (r: Vec<char>)
    ensures
        r@ =~= trim_spec(s@),
{
    let n = s.len();
    let mut lo: usize = 0;
    while lo < n && is_space(s[lo])
        invariant
            0 <= lo <= n,
            n == s@.len(),
            forall|k: int| 0 <= k < lo ==> is_space_char(s@[k]),
        decreases n - lo,
    {
        lo = lo + 1;
    }
    let mut hi: usize = n;
    while hi > lo && is_space(s[hi - 1])
        invariant
            lo <= hi <= n,
            n == s@.len(),
            forall|k: int| 0 <= k < lo ==> is_space_char(s@[k]),
            lo == n || !is_space_char(s@[lo as int]),
            forall|k: int| hi <= k < n ==> is_space_char(s@[k]),
        decreases hi,
    {
        hi = hi - 1;
    }
    proof {
        lemma_trim_start_is_subrange(s@, lo as int);
        let t = s@.subrange(lo as int, n as int);
        lemma_trim_end_is_subrange(t, hi - lo);
        assert(t.subrange(0, hi - lo) =~= s@.subrange(lo as int, hi as int));
    }
    subvec(s, lo, hi)
}

/// A sequence with every leading occurrence of `c` removed.
pub open spec fn trim_char_start(s: Seq<char>, c: char) -> Seq<char>
    decreases s.len(),
{
    if s.len() > 0 && s[0] == c {
        trim_char_start(s.drop_first(), c)
    } else {
        s
    }
}

/// A sequence with every trailing occurrence of `c` removed.
pub open spec fn trim_char_end(s: Seq<char>, c: char) -> Seq<char>
    decreases s.len(),
{
    if s.len() > 0 && s.last() == c {
        trim_char_end(s.drop_last(), c)
    } else {
        s
    }
}

/// A sequence with every occurrence of `c` removed from both ends, as
/// `str::trim_matches` does for a character pattern.
pub open spec fn trim_char_spec(s: Seq<char>, c: char) -> Seq<char> {
    trim_char_end(trim_char_start(s, c), c)
}

proof fn lemma_trim_char_start_is_subrange(s: Seq<char>, c: char, lo: int)
    requires
        0 <= lo <= s.len(),
        forall|k: int| 0 <= k < lo ==> s[k] == c,
        lo == s.len() || s[lo] != c,
    ensures
        trim_char_start(s, c) =~= s.subrange(lo, s.len() as int),
    decreases lo,
{
    if lo == 0 {
    } else {
        let t = s.drop_first();
        lemma_trim_char_start_is_subrange(t, c, lo - 1);
        assert(t.subrange(lo - 1, t.len() as int) =~= s.subrange(lo, s.len() as int));
    }
}

proof fn lemma_trim_char_end_is_subrange(s: Seq<char>, c: char, hi: int)
    requires
        0 <= hi <= s.len(),
        forall|k: int| hi <= k < s.len() ==> s[k] == c,
        hi == 0 || s[hi - 1] != c,
    ensures
        trim_char_end(s, c) =~= s.subrange(0, hi),
    decreases s.len() - hi,
{
    if hi == s.len() {
    } else {
        let t = s.drop_last();
        lemma_trim_char_end_is_subrange(t, c, hi);
        assert(t.subrange(0, hi) =~= s.subrange(0, hi));
    }
}

/// Removes every occurrence of `c` from both ends of a character sequence.
pub fn trim_char_chars(s: &[char], c: char) -> (r: Vec<char>)
    ensures
        r@ =~= trim_char_spec(s@, c),
{
    let n = s.len();
    let mut lo: usize = 0;
    while lo < n && s[lo] == c
        invariant
            0 <= lo <= n,
            n == s@.len(),
            forall|k: int| 0 <= k < lo ==> s@[k] == c,
        decreases n - lo,
    {
        lo = lo + 1;
    }
    let mut hi: usize = n;
    while hi > lo && s[hi - 1] == c
        invariant
            lo <= hi <= n,
            n == s@.len(),
            forall|k: int| 0 <= k < lo ==> s@[k] == c,
            lo == n || s@[lo as int] != c,
            forall|k: int| hi <= k < n ==> s@[k] == c,
        decreases hi,
    {
        hi = hi - 1;
    }
    proof {
        lemma_trim_char_start_is_subrange(s@, c, lo as int);
        let t = s@.subrange(lo as int, n as int);
        lemma_trim_char_end_is_subrange(t, c, hi - lo);
        assert(t.subrange(0, hi - lo) =~= s@.subrange(lo as int, hi as int));
    }
    subvec(s, lo, hi)
}

/// Character-array equality.
pub fn chars_eq(a: &[char], b: &[char]) -> (r: bool)
    ensures
        r == (a@ == b@),
{
    let na = a.len();
    if na != b.len() {
        return false;
    }
    let mut i: usize = 0;
    while i < na
        invariant
            0 <= i <= na,
            na == a@.len(),
            na == b@.len(),
            forall|k: int| 0 <= k < i ==> a@[k] == b@[k],
        decreases na - i,
    {
        if a[i] != b[i] {
            return false;
        }
        i = i + 1;
    }
    proof {
        assert(a@ =~= b@);
    }
    true
}

/// Index of the first occurrence of `c` in `s` at or after `i`, or -1.
pub open spec fn find_char(s: Seq<char>, c: char, i: int) -> int
    decreases s.len() - i,
{
    if i < 0 || i >= s.len() {
        -1
    } else if s[i] == c {
        i
    } else {
        find_char(s, c, i + 1)
    }
}

pub proof fn lemma_find_char(s: Seq<char>, c: char, i: int)
    requires
        0 <= i <= s.len(),
    ensures
        find_char(s, c, i) == -1 ==> forall|k: int| i <= k < s.len() ==> s[k] != c,
        find_char(s, c, i) != -1 ==> i <= find_char(s, c, i) < s.len() && s[find_char(s, c, i)]
            == c && forall|k: int| i <= k < find_char(s, c, i) ==> s[k] != c,
    decreases s.len() - i,
{
    if i < s.len() && s[i] != c {
        lemma_find_char(s, c, i + 1);
    }
}

/// The pieces of `s` between occurrences of the separator `c`; always at
/// least one piece, and empty pieces are kept, as `str::split` does.
pub open spec fn split_char(s: Seq<char>, c: char) -> Seq<Seq<char>>
    decreases s.len(),
    via split_char_decreases
{
    let i = find_char(s, c, 0);
    if i < 0 {
        seq![s]
    } else {
        seq![s.subrange(0, i)] + split_char(s.subrange(i + 1, s.len() as int), c)
    }
}

#[via_fn]
proof fn split_char_decreases(s: Seq<char>, c: char) {
    lemma_find_char(s, c, 0);
}

/// Splitting never yields zero pieces.
pub proof fn lemma_split_char_len(s: Seq<char>, c: char)
    ensures
        split_char(s, c).len() >= 1,
    decreases s.len(),
{
    let i = find_char(s, c, 0);
    if i >= 0 {
        lemma_find_char(s, c, 0);
        lemma_split_char_len(s.subrange(i + 1, s.len() as int), c);
    }
}

/// Unfolds one separator occurrence: if `s[j] == c` and no separator comes
/// before `j`, the split is `s[..j]` followed by the split of `s[j+1..]`.
proof fn lemma_split_char_step(s: Seq<char>, c: char, j: int)
    requires
        0 <= j < s.len(),
        s[j] == c,
        forall|k: int| 0 <= k < j ==> s[k] != c,
    ensures
        split_char(s, c) =~= seq![s.subrange(0, j)] + split_char(
            s.subrange(j + 1, s.len() as int),
            c,
        ),
{
    lemma_find_char(s, c, 0);
    let i = find_char(s, c, 0);
    if i == -1 {
        assert(s[j] != c);
    }
    if i < j {
        assert(s[i] != c);
    }
    if j < i {
        assert(s[j] != c);
    }
}

/// If `s` holds no separator, the split is `s` alone.
proof fn lemma_split_char_whole(s: Seq<char>, c: char)
    requires
        forall|k: int| 0 <= k < s.len() ==> s[k] != c,
    ensures
        split_char(s, c) =~= seq![s],
{
    lemma_find_char(s, c, 0);
    let i = find_char(s, c, 0);
    if i >= 0 {
        assert(s[i] != c);
    }
}

/// Splits `s` on the separator `c`, keeping empty pieces.
pub fn split_chars(s: &[char], c: char) -> (r: Vec<Vec<char>>)
    ensures
        r.deep_view() =~~= split_char(s@, c),
        r@.len() >= 1,
{
    let n = s.len();
    let mut r: Vec<Vec<char>> = Vec::new();
    let mut start: usize = 0;
    let mut i: usize = 0;
    proof {
        assert(s@.subrange(0, n as int) =~= s@);
        assert(r.deep_view() + split_char(s@, c) =~~= split_char(s@, c));
    }
    while i < n
        invariant
            0 <= start <= i <= n,
            n == s@.len(),
            forall|k: int| start <= k < i ==> s@[k] != c,
            split_char(s@, c) =~~= r.deep_view() + split_char(
                s@.subrange(start as int, n as int),
                c,
            ),
        decreases n - i,
    {
        if s[i] == c {
            let piece = subvec(s, start, i);
            proof {
                let rest = s@.subrange(start as int, n as int);
                let tail = s@.subrange(i + 1, n as int);
                lemma_split_char_step(rest, c, i - start);
                assert(rest.subrange(0, i - start) =~= piece@);
                assert(rest.subrange(i - start + 1, rest.len() as int) =~= tail);
                assert(split_char(rest, c) =~~= seq![piece@] + split_char(tail, c));
                assert(r.deep_view() + (seq![piece@] + split_char(tail, c)) =~~= r.deep_view().push(
                    piece@,
                ) + split_char(tail, c));
            }
            let ghost old_deep = r.deep_view();
            r.push(piece);
            proof {
                assert(r.deep_view() =~~= old_deep.push(piece@));
            }
            start = i + 1;
        }
        i = i + 1;
    }
    let piece = subvec(s, start, n);
    proof {
        let rest = s@.subrange(start as int, n as int);
        lemma_split_char_whole(rest, c);
        assert(rest =~= piece@);
        assert(r.deep_view() + seq![piece@] =~~= r.deep_view().push(piece@));
    }
    let ghost old_deep = r.deep_view();
    r.push(piece);
    proof {
        assert(r.deep_view() =~~= old_deep.push(piece@));
    }
    r
}

/// A line with its trailing carriage return removed, as `BufRead::lines`
/// does after it strips the newline.
pub open spec fn strip_cr(l: Seq<char>) -> Seq<char> {
    if l.len() > 0 && l.last() == '\r' {
        l.drop_last()
    } else {
        l
    }
}

/// The lines of a text: pieces between newlines, each with a trailing
/// carriage return removed, and no final empty line when the text ends with
/// a newline. Matches what reading the text line by line yields.
pub open spec fn lines_of(s: Seq<char>) -> Seq<Seq<char>> {
    let parts = split_char(s, '\n');
    let kept = if parts.len() > 0 && parts.last().len() == 0 {
        parts.drop_last()
    } else {
        parts
    };
    kept.map_values(|l: Seq<char>| strip_cr(l))
}

/// What decoding a byte sequence from the Nordic single-byte character set
/// yields. Every byte decodes to exactly one character, so the result has
/// the input's length, and bytes below 0x80 decode to themselves.
pub uninterp spec fn iso_decoded(bytes: Seq<u8>) -> Seq<char>;

/// Relies on encoding_rs::ISO_8859_10, Encoding::decode_without_bom_handling:
/// a single-byte, ASCII-compatible character set whose table maps each of the
/// 256 byte values to one character.
#[verifier::external_body]
fn decode_iso_chars(bytes: &[u8]) -> (r: Vec<char>)
    ensures
        r@ == iso_decoded(bytes@),
        r@.len() == bytes@.len(),
        forall|k: int| 0 <= k < bytes@.len() && bytes@[k] < 0x80 ==> r@[k] == bytes@[k] as char,
{
    let (cow, _) = encoding_rs::ISO_8859_10.decode_without_bom_handling(bytes);
    cow.chars().collect()
}

/// Relies on String::push: appends the given character to the end.
#[verifier::external_body]
fn push_char(s: &mut String, c: char)
    ensures
        final(s)@ == old(s)@.push(c),
{
    s.push(c);
}

/// Builds a string from a character sequence.
pub fn chars_to_string(s: &[char]) -> (r: String)
    ensures
        r@ =~= s@,
{
    let mut r = String::new();
    let mut i: usize = 0;
    while i < s.len()
        invariant
            0 <= i <= s@.len(),
            r@ =~= s@.subrange(0, i as int),
        decreases s@.len() - i,
    {
        push_char(&mut r, s[i]);
        i = i + 1;
    }
    r
}

/// Collects a string's characters into a vector.
pub fn str_to_chars(s: &str) -> (r: Vec<char>)
    ensures
        r@ =~= s@,
{
    let n = s.unicode_len();
    let mut r: Vec<char> = Vec::new();
    let mut i: usize = 0;
    while i < n
        invariant
            0 <= i <= n,
            n == s@.len(),
            r@ =~= s@.subrange(0, i as int),
        decreases n - i,
    {
        r.push(s.get_char(i));
        i = i + 1;
    }
    r
}

/// Character-wise string equality.
pub fn str_eq(a: &str, b: &str) -> (r: bool)
    ensures
        r == (a@ == b@),
{
    let na = a.unicode_len();
    let nb = b.unicode_len();
    if na != nb {
        return false;
    }
    let mut i: usize = 0;
    while i < na
        invariant
            0 <= i <= na,
            na == a@.len(),
            na == b@.len(),
            forall|k: int| 0 <= k < i ==> a@[k] == b@[k],
        decreases na - i,
    {
        if a.get_char(i) != b.get_char(i) {
            return false;
        }
        i = i + 1;
    }
    proof {
        assert(a@ =~= b@);
    }
    true
}

/// Decodes a byte sequence and cuts it into lines.
pub fn decode_lines(bytes: &[u8]) -> (r: Vec<String>)
    ensures
        r.deep_view() =~~= lines_of(iso_decoded(bytes@)),
{
    let text = decode_iso_chars(bytes);
    let mut parts = split_chars(text.as_slice(), '\n');
    let ghost all_parts = parts.deep_view();
    let drop_last = parts[parts.len() - 1].len() == 0;
    if drop_last {
        parts.pop();
    }
    proof {
        if drop_last {
            assert(parts.deep_view() =~~= all_parts.drop_last());
        }
    }
    let ghost kept = parts.deep_view();
    let mut r: Vec<String> = Vec::new();
    let mut i: usize = 0;
    while i < parts.len()
        invariant
            0 <= i <= parts@.len(),
            kept == parts.deep_view(),
            kept.len() == parts@.len(),
            r.deep_view() =~~= kept.map_values(|l: Seq<char>| strip_cr(l)).subrange(0, i as int),
        decreases parts@.len() - i,
    {
        let piece = &parts[i];
        let stripped: String = if piece.len() > 0 && piece[piece.len() - 1] == '\r' {
            chars_to_string(&subvec(piece.as_slice(), 0, piece.len() - 1))
        } else {
            chars_to_string(piece.as_slice())
        };
        proof {
            assert(piece@ == kept[i as int]);
            if piece@.len() > 0 && piece@.last() == '\r' {
                assert(piece@.subrange(0, piece@.len() - 1) =~= piece@.drop_last());
            }
            assert(stripped@ =~= strip_cr(kept[i as int]));
        }
        let ghost old_deep = r.deep_view();
        r.push(stripped);
        proof {
            assert(r.deep_view() =~~= old_deep.push(stripped@));
            assert(r.deep_view() =~~= kept.map_values(|l: Seq<char>| strip_cr(l)).subrange(
                0,
                i + 1,
            ));
        }
        i = i + 1;
    }
    proof {
        assert(kept.map_values(|l: Seq<char>| strip_cr(l)).subrange(0, kept.len() as int) =~~=
        kept.map_values(|l: Seq<char>| strip_cr(l)));
    }
    r
}

} // verus!
