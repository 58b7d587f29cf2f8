//! Character-level helpers over `String` and `&str`, stated over `Seq<char>`.
use vstd::prelude::*;
use vstd::utf8::{encode_scalar, encode_utf8};

verus! {

/// `String::push` appends one character at the end.
pub assume_specification[ String::push ](s: &mut String, ch: char)
    ensures
        final(s)@ == old(s)@.push(ch),
;

/// The character views of a sequence of strings.
pub open spec fn texts(v: Seq<String>) -> Seq<Seq<char>> {
    v.map_values(|s: String| s@)
}

/// The pieces of `s` between occurrences of `sep`, as `str::split` with a
/// character pattern yields them: `k` separators give `k + 1` pieces, so the
/// empty string gives one empty piece.
pub open spec fn split_by(s: Seq<char>, sep: char) -> Seq<Seq<char>>
    decreases s.len(),
{
    if s.len() == 0 {
        seq![Seq::<char>::empty()]
    } else {
        let pieces = split_by(s.drop_last(), sep);
        if s.last() == sep {
            pieces.push(Seq::<char>::empty())
        } else {
            pieces.update(pieces.len() - 1, pieces.last().push(s.last()))
        }
    }
}

/// `p` occurs in `s` as a contiguous run of characters.
pub open spec fn has_infix(s: Seq<char>, p: Seq<char>) -> bool {
    exists|i: int| 0 <= i && i + p.len() <= s.len() && #[trigger] s.subrange(i, i + p.len()) == p
}

/// `s` without its last character when that character is `c`.
pub open spec fn strip_last(s: Seq<char>, c: char) -> Seq<char> {
    if s.len() > 0 && s.last() == c {
        s.drop_last()
    } else {
        s
    }
}

/// The lines of `s` as `str::lines` gives them: the pieces between `'\n'`,
/// each that a `'\n'` ends losing one trailing `'\r'`, and a last piece that
/// is empty dropped.
pub open spec fn lines_of(s: Seq<char>) -> Seq<Seq<char>> {
    let pieces = split_by(s, '\n');
    let ended = strip_crs(pieces.drop_last());
    if pieces.last().len() == 0 {
        ended
    } else {
        ended.push(pieces.last())
    }
}

/// Each piece without one trailing `'\r'`.
pub open spec fn strip_crs(ps: Seq<Seq<char>>) -> Seq<Seq<char>> {
    ps.map_values(|p: Seq<char>| strip_last(p, '\r'))
}

/// `s` with every trailing `c` removed.
pub open spec fn trim_end_char(s: Seq<char>, c: char) -> Seq<char>
    decreases s.len(),
{
    if s.len() > 0 && s.last() == c {
        trim_end_char(s.drop_last(), c)
    } else {
        s
    }
}

/// The position of the first `c` in `s`, if any.
pub open spec fn first_position(s: Seq<char>, c: char) -> Option<int> {
    if s.contains(c) {
        Some(choose|i: int| 0 <= i < s.len() && s[i] == c && forall|j: int| 0 <= j < i ==> s[j] != c)
    } else {
        None
    }
}

pub proof fn lemma_split_len_positive(s: Seq<char>, sep: char)
    ensures
        split_by(s, sep).len() >= 1,
    decreases s.len(),
{
    if s.len() > 0 {
        lemma_split_len_positive(s.drop_last(), sep);
    }
}

/// The characters of `s`, in order.
pub fn to_chars(s: &str) -> (v: Vec<char>)
    ensures
        v@ == s@,
{
    let mut v: Vec<char> = Vec::new();
    for c in it: s.chars()
        invariant
            v@ == it.seq().take(it.index() as int),
            it.seq() == s@,
    {
        v.push(c);
    }
    v
}

/// The string made of the characters `v[lo..hi]`, in order.
pub fn from_chars(v: &[char], lo: usize, hi: usize) -> (s: String)
    requires
        lo <= hi <= v.len(),
    ensures
        s@ == v@.subrange(lo as int, hi as int),
{
    let mut s = String::new();
    let mut i: usize = lo;
    while i < hi
        invariant
            lo <= i <= hi <= v.len(),
            s@ == v@.subrange(lo as int, i as int),
        decreases hi - i,
    {
        s.push(v[i]);
        proof {
            assert(v@.subrange(lo as int, i + 1) == v@.subrange(lo as int, i as int).push(v@[i as int]));
        }
        i = i + 1;
    }
    s
}

/// The pieces of `s` between occurrences of `sep` (`str::split` on a character).
pub fn split_on(s: &str, sep: char) -> (pieces: Vec<String>)
    ensures
        texts(pieces@) == split_by(s@, sep),
{
    let mut pieces: Vec<String> = Vec::new();
    let mut cur = String::new();
    proof {
        assert(s@.take(0) =~= Seq::<char>::empty());
        assert(texts(pieces@).push(cur@) =~= seq![Seq::<char>::empty()]);
    }
    for c in it: s.chars()
        invariant
            it.seq() == s@,
            texts(pieces@).push(cur@) == split_by(s@.take(it.index() as int), sep),
    {
        let ghost i = it.index();
        proof {
            assert(s@.take(i + 1).drop_last() =~= s@.take(i));
            assert(s@.take(i + 1).last() == c);
            lemma_split_len_positive(s@.take(i), sep);
        }
        if c == sep {
            let done = cur;
            pieces.push(done);
            cur = String::new();
            proof {
                assert(texts(pieces@).push(cur@) =~= split_by(s@.take(i + 1), sep));
            }
        } else {
            cur.push(c);
            proof {
                assert(texts(pieces@).push(cur@) =~= split_by(s@.take(i + 1), sep));
            }
        }
    }
    proof {
        assert(s@.take(s@.len() as int) =~= s@);
    }
    pieces.push(cur);
    proof {
        assert(texts(pieces@) =~= split_by(s@, sep));
    }
    pieces
}


/// Whether `p` occurs in `s` starting at position `i`.
fn infix_at(s: &[char], p: &[char], i: usize) -> (r: bool)
    requires
        i + p.len() <= s.len(),
    ensures
        r == (s@.subrange(i as int, i + p.len()) == p@),
{
    let mut k: usize = 0;
    while k < p.len()
        invariant
            k <= p.len(),
            i + p.len() <= s.len(),
            forall|j: int| 0 <= j < k ==> s@[i + j] == p@[j],
        decreases p.len() - k,
    {
        if s[i + k] != p[k] {
            proof {
                assert(s@.subrange(i as int, i + p.len())[k as int] != p@[k as int]);
            }
            return false;
        }
        k = k + 1;
    }
    proof {
        assert(s@.subrange(i as int, i + p.len()) =~= p@);
    }
    true
}

/// Whether `p` occurs in `s` as a contiguous run (`str::contains` on a string).
pub fn contains_chars(s: &[char], p: &[char]) -> (r: bool)
    ensures
        r == has_infix(s@, p@),
{
    if p.len() > s.len() {
        return false;
    }
    let last = s.len() - p.len();
    let mut i: usize = 0;
    loop
        invariant
            last == s.len() - p.len(),
            p.len() <= s.len(),
            i <= last,
            forall|j: int| 0 <= j < i ==> #[trigger] s@.subrange(j, j + p.len()) != p@,
        decreases last - i,
    {
        if infix_at(s, p, i) {
            return true;
        }
        if i == last {
            return false;
        }
        i = i + 1;
    }
}

/// Whether `p` occurs in `s` as a contiguous run.
pub fn str_contains(s: &str, p: &str) -> (r: bool)
    ensures
        r == has_infix(s@, p@),
{
    let sv = to_chars(s);
    let pv = to_chars(p);
    contains_chars(sv.as_slice(), pv.as_slice())
}

/// `s` with every trailing `c` removed (`str::trim_end_matches` on a character).
pub fn trim_end_matches_char(s: &str, c: char) -> (r: String)
    ensures
        r@ == trim_end_char(s@, c),
{
    let v = to_chars(s);
    let mut end: usize = v.len();
    proof {
        assert(v@.subrange(0, end as int) =~= v@);
    }
    while end > 0 && v[end - 1] == c
        invariant
            end <= v.len(),
            trim_end_char(v@.subrange(0, end as int), c) == trim_end_char(s@, c),
            v@ == s@,
        decreases end,
    {
        proof {
            assert(v@.subrange(0, end - 1) =~= v@.subrange(0, end as int).drop_last());
        }
        end = end - 1;
    }
    from_chars(v.as_slice(), 0, end)
}

/// The first position of `c` is the first index that holds it.
pub proof fn lemma_first_position(s: Seq<char>, c: char, i: int)
    requires
        0 <= i < s.len(),
        s[i] == c,
        forall|j: int| 0 <= j < i ==> s[j] != c,
    ensures
        first_position(s, c) == Some(i),
{
    assert(s.contains(c));
    let k = choose|k: int| 0 <= k < s.len() && s[k] == c && forall|j: int| 0 <= j < k ==> s[j] != c;
    assert(0 <= k < s.len() && s[k] == c && forall|j: int| 0 <= j < k ==> s[j] != c);
    if k < i {
        assert(s[k] != c);
    } else if k > i {
        assert(s[i] != c);
    }
}

/// The position of the first `c` in `v`, if any.
pub fn find_char(v: &[char], c: char) -> (r: Option<usize>)
    ensures
        match r {
            Some(i) => {
                &&& i < v@.len()
                &&& v@[i as int] == c
                &&& forall|j: int| 0 <= j < i ==> v@[j] != c
                &&& first_position(v@, c) == Some(i as int)
            },
            None => !v@.contains(c) && first_position(v@, c) is None,
        },
{
    let mut i: usize = 0;
    while i < v.len()
        invariant
            i <= v.len(),
            forall|j: int| 0 <= j < i ==> v@[j] != c,
        decreases v.len() - i,
    {
        if v[i] == c {
            proof {
                lemma_first_position(v@, c, i as int);
            }
            return Some(i);
        }
        i = i + 1;
    }
    None
}

/// `p` without one trailing `c`, if it ends with one.
fn strip_last_string(p: String, c: char) -> (r: String)
    ensures
        r@ == strip_last(p@, c),
{
    let v = to_chars(p.as_str());
    if v.len() > 0 && v[v.len() - 1] == c {
        from_chars(v.as_slice(), 0, v.len() - 1)
    } else {
        p
    }
}

/// The lines of `s` (`str::lines`).
pub fn lines(s: &str) -> (r: Vec<String>)
    ensures
        texts(r@) == lines_of(s@),
{
    let pieces = split_on(s, '\n');
    proof {
        lemma_split_len_positive(s@, '\n');
    }
    let n = pieces.len();
    let mut r: Vec<String> = Vec::new();
    let mut j: usize = 0;
    let ghost ps = split_by(s@, '\n');
    while j < n - 1
        invariant
            n == pieces.len(),
            n >= 1,
            j <= n - 1,
            ps == split_by(s@, '\n'),
            texts(pieces@) == ps,
            texts(r@) == strip_crs(ps.drop_last()).take(j as int),
        decreases n - 1 - j,
    {
        let piece = pieces[j].clone();
        let line = strip_last_string(piece, '\r');
        let ghost old_r = r@;
        let ghost line_view = line@;
        r.push(line);
        proof {
            assert(texts(r@) =~= texts(old_r).push(line_view));
            assert(ps[j as int] == pieces@[j as int]@);
            assert(strip_crs(ps.drop_last())[j as int] == strip_last(ps[j as int], '\r'));
            assert(texts(r@) =~= strip_crs(ps.drop_last()).take(j + 1));
        }
        j = j + 1;
    }
    proof {
        assert(strip_crs(ps.drop_last()).take(j as int)
            =~= strip_crs(ps.drop_last()));
        assert(ps.last() == pieces@[n - 1]@);
    }
    if string_is_empty(&pieces[n - 1]) {
        r
    } else {
        let last = pieces[n - 1].clone();
        let ghost old_r = r@;
        r.push(last);
        proof {
            assert(texts(r@) =~= texts(old_r).push(ps.last()));
            assert(texts(r@) =~= lines_of(s@));
        }
        r
    }
}

/// Whether `s` holds no character.
pub fn string_is_empty(s: &String) -> (r: bool)
    ensures
        r == (s@.len() == 0),
{
    s.as_str().is_empty()
}

/// The number of bytes that UTF-8 takes for a character.
pub open spec fn char_width(c: char) -> nat {
    let n = c as u32;
    if n <= 0x7f {
        1
    } else if n <= 0x7ff {
        2
    } else if n <= 0xffff {
        3
    } else {
        4
    }
}

/// The byte position, in the UTF-8 form of `s`, at which its character `k` starts.
pub open spec fn byte_offset(s: Seq<char>, k: int) -> nat {
    encode_utf8(s.take(k)).len()
}

/// `b` is a byte position at which a character of `s` starts (or its end).
pub open spec fn is_char_boundary_at(s: Seq<char>, b: int) -> bool {
    exists|k: int| 0 <= k <= s.len() && byte_offset(s, k) == b
}

/// The character index that the byte position `b` stands for.
pub open spec fn char_index_at(s: Seq<char>, b: int) -> int {
    choose|k: int| 0 <= k <= s.len() && byte_offset(s, k) == b
}

proof fn lemma_encode_push(a: Seq<char>, c: char)
    ensures
        encode_utf8(a.push(c)) == encode_utf8(a) + encode_scalar(c as u32),
    decreases a.len(),
{
    if a.len() == 0 {
        assert(a.push(c).drop_first() =~= Seq::<char>::empty());
        assert(a.push(c)[0] == c);
        assert(encode_utf8(Seq::<char>::empty()) =~= Seq::<u8>::empty());
        assert(encode_utf8(a) =~= Seq::<u8>::empty());
        assert(encode_utf8(a.push(c)) == encode_scalar(c as u32) + encode_utf8(a.push(c).drop_first()));
        assert(encode_utf8(a.push(c)) =~= encode_utf8(a) + encode_scalar(c as u32));
    } else {
        lemma_encode_push(a.drop_first(), c);
        assert(a.push(c).drop_first() =~= a.drop_first().push(c));
        assert(a.push(c)[0] == a[0]);
        assert(encode_utf8(a.push(c)) =~= encode_utf8(a) + encode_scalar(c as u32));
    }
}

/// The byte position of character `k + 1` follows that of character `k` by its width.
pub proof fn lemma_offset_step(s: Seq<char>, k: int)
    requires
        0 <= k < s.len(),
    ensures
        byte_offset(s, k + 1) == byte_offset(s, k) + char_width(s[k]),
{
    assert(s.take(k + 1) =~= s.take(k).push(s[k]));
    lemma_encode_push(s.take(k), s[k]);
    vstd::utf8::char_is_scalar(s[k]);
}

/// Byte positions grow with character positions.
pub proof fn lemma_offset_strict(s: Seq<char>, i: int, j: int)
    requires
        0 <= i < j <= s.len(),
    ensures
        byte_offset(s, i) < byte_offset(s, j),
    decreases j - i,
{
    lemma_offset_step(s, j - 1);
    if i < j - 1 {
        lemma_offset_strict(s, i, j - 1);
    }
}

/// The byte position of the end is the length of the UTF-8 form.
pub proof fn lemma_offset_total(s: Seq<char>)
    ensures
        byte_offset(s, s.len() as int) == encode_utf8(s).len(),
{
    assert(s.take(s.len() as int) =~= s);
}

/// The character index of a byte position at which a character starts.
pub proof fn lemma_char_index_at(s: Seq<char>, k: int)
    requires
        0 <= k <= s.len(),
    ensures
        is_char_boundary_at(s, byte_offset(s, k) as int),
        char_index_at(s, byte_offset(s, k) as int) == k,
{
    let b = byte_offset(s, k) as int;
    assert(0 <= k <= s.len() && byte_offset(s, k) == b);
    let c = char_index_at(s, b);
    if c < k {
        lemma_offset_strict(s, c, k);
    } else if k < c {
        lemma_offset_strict(s, k, c);
    }
}

/// Where each of the first `k` characters is one byte long, the byte
/// position of character `k` is `k`.
pub proof fn lemma_offset_ascii(s: Seq<char>, k: int)
    requires
        0 <= k <= s.len(),
        forall|i: int| 0 <= i < k ==> (s[i] as u32) < 0x80,
    ensures
        byte_offset(s, k) == k,
    decreases k,
{
    if k == 0 {
        assert(s.take(0) =~= Seq::<char>::empty());
    } else {
        lemma_offset_ascii(s, k - 1);
        lemma_offset_step(s, k - 1);
    }
}

/// The width of a character, in bytes.
pub fn char_width_of(c: char) -> (w: usize)
    ensures
        w == char_width(c),
{
    let n = c as u32;
    if n <= 0x7f {
        1
    } else if n <= 0x7ff {
        2
    } else if n <= 0xffff {
        3
    } else {
        4
    }
}

/// The byte position of character `k` of `v`, where `total` is the length
/// of the UTF-8 form of `v`.
pub fn byte_offset_of(v: &[char], total: usize, k: usize) -> (r: usize)
    requires
        k <= v.len(),
        total == byte_offset(v@, v@.len() as int),
    ensures
        r == byte_offset(v@, k as int),
{
    let mut off: usize = 0;
    let mut i: usize = 0;
    proof {
        assert(v@.take(0) =~= Seq::<char>::empty());
    }
    while i < k
        invariant
            i <= k <= v.len(),
            total == byte_offset(v@, v@.len() as int),
            off == byte_offset(v@, i as int),
        decreases k - i,
    {
        proof {
            lemma_offset_step(v@, i as int);
            if i + 1 < v.len() {
                lemma_offset_strict(v@, i + 1, v@.len() as int);
            }
        }
        off = off + char_width_of(v[i]);
        i = i + 1;
    }
    off
}

/// The character index at byte position `b` of `v`, if a character starts
/// there (or `b` is its end), where `total` is the length of its UTF-8 form.
pub fn char_index_of_byte(v: &[char], total: usize, b: usize) -> (r: Option<usize>)
    requires
        total == byte_offset(v@, v@.len() as int),
    ensures
        match r {
            Some(k) => k <= v.len() && byte_offset(v@, k as int) == b && is_char_boundary_at(v@, b as int)
                && char_index_at(v@, b as int) == k,
            None => !is_char_boundary_at(v@, b as int),
        },
{
    let mut off: usize = 0;
    let mut i: usize = 0;
    proof {
        assert(v@.take(0) =~= Seq::<char>::empty());
    }
    while i < v.len()
        invariant
            i <= v.len(),
            total == byte_offset(v@, v@.len() as int),
            off == byte_offset(v@, i as int),
            forall|j: int| 0 <= j < i ==> byte_offset(v@, j) != b,
        decreases v.len() - i,
    {
        if off == b {
            proof {
                lemma_char_index_at(v@, i as int);
            }
            return Some(i);
        }
        proof {
            lemma_offset_step(v@, i as int);
            if i + 1 < v.len() {
                lemma_offset_strict(v@, i + 1, v@.len() as int);
            }
        }
        off = off + char_width_of(v[i]);
        i = i + 1;
    }
    if off == b {
        proof {
            lemma_char_index_at(v@, i as int);
        }
        return Some(i);
    }
    None
}

/// The length in bytes of the UTF-8 form of `s`.
pub fn utf8_length(s: &str) -> (r: usize)
    ensures
        r == byte_offset(s@, s@.len() as int),
{
    let bytes = s.as_bytes();
    proof {
        lemma_offset_total(s@);
    }
    bytes.len()
}

} // verus!
