use vstd::prelude::*;

verus! {

/// Character sequences as the contracts see text.
pub type Chars = Seq<char>;

// ---------------------------------------------------------------------------
// Character classes
// ---------------------------------------------------------------------------

/// The characters that Unicode gives the White_Space property; `str::trim` strips these.
pub open spec fn is_ws(c: char) -> bool {
    let u = c as u32;
    ||| 0x9 <= u && u <= 0xd
    ||| u == 0x20
    ||| u == 0x85
    ||| u == 0xa0
    ||| u == 0x1680
    ||| 0x2000 <= u && u <= 0x200a
    ||| u == 0x2028
    ||| u == 0x2029
    ||| u == 0x202f
    ||| u == 0x205f
    ||| u == 0x3000
}

pub open spec fn is_ascii_digit(c: char) -> bool {
    '0' as u32 <= c as u32 && c as u32 <= '9' as u32
}

pub open spec fn is_ascii_lower(c: char) -> bool {
    'a' as u32 <= c as u32 && c as u32 <= 'z' as u32
}

pub open spec fn is_ascii_upper(c: char) -> bool {
    'A' as u32 <= c as u32 && c as u32 <= 'Z' as u32
}

pub open spec fn is_ascii_alpha(c: char) -> bool {
    is_ascii_lower(c) || is_ascii_upper(c)
}

pub open spec fn is_ascii_alnum(c: char) -> bool {
    is_ascii_alpha(c) || is_ascii_digit(c)
}

pub fn ws_char(c: char) -> (b: bool)
    ensures
        b == is_ws(c),
{
    let u = c as u32;
    (0x9 <= u && u <= 0xd) || u == 0x20 || u == 0x85 || u == 0xa0 || u == 0x1680 || (0x2000 <= u
        && u <= 0x200a) || u == 0x2028 || u == 0x2029 || u == 0x202f || u == 0x205f || u == 0x3000
}

pub fn digit_char(c: char) -> (b: bool)
    ensures
        b == is_ascii_digit(c),
{
    '0' as u32 <= c as u32 && c as u32 <= '9' as u32
}

pub fn lower_char(c: char) -> (b: bool)
    ensures
        b == is_ascii_lower(c),
{
    'a' as u32 <= c as u32 && c as u32 <= 'z' as u32
}

pub fn alpha_char(c: char) -> (b: bool)
    ensures
        b == is_ascii_alpha(c),
{
    ('a' as u32 <= c as u32 && c as u32 <= 'z' as u32) || ('A' as u32 <= c as u32 && c as u32
        <= 'Z' as u32)
}

pub fn alnum_char(c: char) -> (b: bool)
    ensures
        b == is_ascii_alnum(c),
{
    alpha_char(c) || digit_char(c)
}

// ---------------------------------------------------------------------------
// Conversions between strings and character vectors
// ---------------------------------------------------------------------------

/// Collects the characters of a string slice, in order.
pub fn chars_of(s: &str) -> (v: Vec<char>)
    ensures
        v@ == s@,
{
    let mut v: Vec<char> = Vec::new();
    for c in it: s.chars()
        invariant
            v@ == it.seq().take(it.index() as int),
            it.seq() == s@,
    {
        v.push(c);
    }
    v
}

/// `String::push`: appends one character.
#[verifier::external_body]
pub(crate) fn push_char(s: &mut String, c: char)
    ensures
        final(s)@ == old(s)@.push(c),
{
    s.push(c);
}

/// Builds a string from a slice of characters.
pub fn string_of(v: &[char]) -> (s: String)
    ensures
        s@ == v@,
{
    let mut s = String::new();
    let mut i: usize = 0;
    while i < v.len()
        invariant
            i <= v@.len(),
            s@ == v@.take(i as int),
        decreases v@.len() - i,
    {
        push_char(&mut s, v[i]);
        assert(v@.take(i as int).push(v@[i as int]) =~= v@.take(i + 1));
        i += 1;
    }
    assert(v@.take(v@.len() as int) =~= v@);
    s
}

/// Copies a string.
pub fn copy_str(s: &str) -> (r: String)
    ensures
        r@ == s@,
{
    let v = chars_of(s);
    string_of(v.as_slice())
}

/// Copies the characters `v[from..to]`.
pub fn sub_chars(v: &[char], from: usize, to: usize) -> (r: Vec<char>)
    requires
        from <= to <= v@.len(),
    ensures
        r@ == v@.subrange(from as int, to as int),
{
    let mut r: Vec<char> = Vec::new();
    let mut i = from;
    while i < to
        invariant
            from <= i <= to <= v@.len(),
            r@ == v@.subrange(from as int, i as int),
        decreases to - i,
    {
        r.push(v[i]);
        assert(v@.subrange(from as int, i as int).push(v@[i as int]) =~= v@.subrange(
            from as int,
            i + 1,
        ));
        i += 1;
    }
    r
}

/// Appends the characters of `b` to `a`.
pub fn append_chars(a: &mut Vec<char>, b: &[char])
    ensures
        final(a)@ == old(a)@ + b@,
{
    let mut i: usize = 0;
    while i < b.len()
        invariant
            i <= b@.len(),
            a@ == old(a)@ + b@.take(i as int),
        decreases b@.len() - i,
    {
        a.push(b[i]);
        assert(old(a)@ + b@.take(i as int) + seq![b@[i as int]] =~= old(a)@ + b@.take(i + 1));
        i += 1;
    }
    assert(b@.take(b@.len() as int) =~= b@);
}

/// Appends a string slice to a string.
pub fn append_str(a: &mut String, b: &str)
    ensures
        final(a)@ == old(a)@ + b@,
{
    let v = chars_of(b);
    let mut i: usize = 0;
    while i < v.len()
        invariant
            i <= v@.len(),
            v@ == b@,
            a@ == old(a)@ + v@.take(i as int),
        decreases v@.len() - i,
    {
        push_char(a, v[i]);
        assert(old(a)@ + v@.take(i as int) + seq![v@[i as int]] =~= old(a)@ + v@.take(i + 1));
        i += 1;
    }
    assert(v@.take(v@.len() as int) =~= v@);
}

/// Concatenation of two string slices.
pub fn concat2(a: &str, b: &str) -> (r: String)
    ensures
        r@ == a@ + b@,
{
    let mut r = copy_str(a);
    append_str(&mut r, b);
    r
}

/// Concatenation of three string slices.
pub fn concat3(a: &str, b: &str, c: &str) -> (r: String)
    ensures
        r@ == a@ + b@ + c@,
{
    let mut r = copy_str(a);
    append_str(&mut r, b);
    append_str(&mut r, c);
    r
}

/// Equality of two string slices, character by character.
pub fn str_eq(a: &str, b: &str) -> (r: bool)
    ensures
        r == (a@ == b@),
{
    let va = chars_of(a);
    let vb = chars_of(b);
    chars_eq(va.as_slice(), vb.as_slice())
}

pub fn chars_eq(a: &[char], b: &[char]) -> (r: bool)
    ensures
        r == (a@ == b@),
{
    if a.len() != b.len() {
        return false;
    }
    let mut i: usize = 0;
    while i < a.len()
        invariant
            a@.len() == b@.len(),
            i <= a@.len(),
            forall|k: int| 0 <= k < i ==> a@[k] == b@[k],
        decreases a@.len() - i,
    {
        if a[i] != b[i] {
            return false;
        }
        i += 1;
    }
    assert(a@ =~= b@);
    true
}

// ---------------------------------------------------------------------------
// Trimming
// ---------------------------------------------------------------------------

/// `str::trim_start`: drops leading white space.
pub open spec fn trim_start(s: Chars) -> Chars
    decreases s.len(),
{
    if s.len() > 0 && is_ws(s[0]) {
        trim_start(s.drop_first())
    } else {
        s
    }
}

/// `str::trim_end`: drops trailing white space.
pub open spec fn trim_end(s: Chars) -> Chars
    decreases s.len(),
{
    if s.len() > 0 && is_ws(s.last()) {
        trim_end(s.drop_last())
    } else {
        s
    }
}

/// `str::trim`: drops white space at both ends.
pub open spec fn trim(s: Chars) -> Chars {
    trim_end(trim_start(s))
}

proof fn lemma_trim_start_skip(s: Chars, i: int)
    requires
        0 <= i <= s.len(),
        forall|k: int| 0 <= k < i ==> is_ws(#[trigger] s[k]),
    ensures
        trim_start(s) == trim_start(s.skip(i)),
    decreases i,
{
    if i > 0 {
        assert(s.drop_first().skip(i - 1) =~= s.skip(i));
        lemma_trim_start_skip(s.drop_first(), i - 1);
    } else {
        assert(s.skip(0) =~= s);
    }
}

proof fn lemma_trim_end_take(s: Chars, j: int)
    requires
        0 <= j <= s.len(),
        forall|k: int| j <= k < s.len() ==> is_ws(#[trigger] s[k]),
    ensures
        trim_end(s) == trim_end(s.take(j)),
    decreases s.len() - j,
{
    if j < s.len() {
        assert(s.drop_last().take(j) =~= s.take(j));
        lemma_trim_end_take(s.drop_last(), j);
    } else {
        assert(s.take(j) =~= s);
    }
}

/// Position of the first character that is not white space (or the length).
pub fn trim_start_index(v: &[char]) -> (i: usize)
    ensures
        i <= v@.len(),
        trim_start(v@) == v@.skip(i as int),
{
    let mut i: usize = 0;
    while i < v.len() && ws_char(v[i])
        invariant
            i <= v@.len(),
            forall|k: int| 0 <= k < i ==> is_ws(#[trigger] v@[k]),
        decreases v@.len() - i,
    {
        i += 1;
    }
    proof {
        lemma_trim_start_skip(v@, i as int);
        let t = v@.skip(i as int);
        if t.len() > 0 {
            assert(t[0] == v@[i as int]);
        }
    }
    i
}

/// Position just past the last character that is not white space (or 0).
pub fn trim_end_index(v: &[char]) -> (j: usize)
    ensures
        j <= v@.len(),
        trim_end(v@) == v@.take(j as int),
{
    let mut j: usize = v.len();
    while j > 0 && ws_char(v[j - 1])
        invariant
            j <= v@.len(),
            forall|k: int| j <= k < v@.len() ==> is_ws(#[trigger] v@[k]),
        decreases j,
    {
        j -= 1;
    }
    proof {
        lemma_trim_end_take(v@, j as int);
        let t = v@.take(j as int);
        if t.len() > 0 {
            assert(t.last() == v@[j - 1]);
        }
    }
    j
}

pub fn trim_chars(v: &[char]) -> (r: Vec<char>)
    ensures
        r@ == trim(v@),
{
    let i = trim_start_index(v);
    let rest = sub_chars(v, i, v.len());
    assert(rest@ =~= v@.skip(i as int));
    let j = trim_end_index(rest.as_slice());
    sub_chars(rest.as_slice(), 0, j)
}

pub fn trim_start_chars(v: &[char]) -> (r: Vec<char>)
    ensures
        r@ == trim_start(v@),
{
    let i = trim_start_index(v);
    let r = sub_chars(v, i, v.len());
    assert(r@ =~= v@.skip(i as int));
    r
}

pub fn trim_end_chars(v: &[char]) -> (r: Vec<char>)
    ensures
        r@ == trim_end(v@),
{
    let j = trim_end_index(v);
    sub_chars(v, 0, j)
}

/// `str::trim` on a string slice.
pub fn trim_str(s: &str) -> (r: Vec<char>)
    ensures
        r@ == trim(s@),
{
    let v = chars_of(s);
    trim_chars(v.as_slice())
}

/// `trim_end_matches(c)`: drops every trailing `c`.
pub open spec fn trim_end_char(s: Chars, c: char) -> Chars
    decreases s.len(),
{
    if s.len() > 0 && s.last() == c {
        trim_end_char(s.drop_last(), c)
    } else {
        s
    }
}

proof fn lemma_trim_end_char_take(s: Chars, c: char, j: int)
    requires
        0 <= j <= s.len(),
        forall|k: int| j <= k < s.len() ==> #[trigger] s[k] == c,
    ensures
        trim_end_char(s, c) == trim_end_char(s.take(j), c),
    decreases s.len() - j,
{
    if j < s.len() {
        assert(s.drop_last().take(j) =~= s.take(j));
        lemma_trim_end_char_take(s.drop_last(), c, j);
    } else {
        assert(s.take(j) =~= s);
    }
}

pub fn trim_end_char_chars(v: &[char], c: char) -> (r: Vec<char>)
    ensures
        r@ == trim_end_char(v@, c),
{
    let mut j: usize = v.len();
    while j > 0 && v[j - 1] == c
        invariant
            j <= v@.len(),
            forall|k: int| j <= k < v@.len() ==> #[trigger] v@[k] == c,
        decreases j,
    {
        j -= 1;
    }
    proof {
        lemma_trim_end_char_take(v@, c, j as int);
        let t = v@.take(j as int);
        if t.len() > 0 {
            assert(t.last() == v@[j - 1]);
        }
    }
    sub_chars(v, 0, j)
}

// ---------------------------------------------------------------------------
// Prefixes, suffixes, membership, search
// ---------------------------------------------------------------------------

pub open spec fn starts_with(s: Chars, p: Chars) -> bool {
    p.len() <= s.len() && s.take(p.len() as int) == p
}

pub open spec fn ends_with(s: Chars, p: Chars) -> bool {
    p.len() <= s.len() && s.skip(s.len() - p.len()) == p
}

pub fn starts_with_chars(s: &[char], p: &[char]) -> (b: bool)
    ensures
        b == starts_with(s@, p@),
{
    if p.len() > s.len() {
        return false;
    }
    let mut i: usize = 0;
    while i < p.len()
        invariant
            p@.len() <= s@.len(),
            i <= p@.len(),
            forall|k: int| 0 <= k < i ==> s@[k] == p@[k],
        decreases p@.len() - i,
    {
        if s[i] != p[i] {
            assert(s@.take(p@.len() as int)[i as int] != p@[i as int]);
            return false;
        }
        i += 1;
    }
    assert(s@.take(p@.len() as int) =~= p@);
    true
}

pub fn ends_with_chars(s: &[char], p: &[char]) -> (b: bool)
    ensures
        b == ends_with(s@, p@),
{
    if p.len() > s.len() {
        return false;
    }
    let off = s.len() - p.len();
    let n = s.len();
    let mut i: usize = 0;
    while i < p.len()
        invariant
            n == s@.len(),
            p@.len() <= s@.len(),
            off == s@.len() - p@.len(),
            i <= p@.len(),
            forall|k: int| 0 <= k < i ==> s@[off + k] == p@[k],
        decreases p@.len() - i,
    {
        if s[off + i] != p[i] {
            assert(s@.skip(off as int)[i as int] != p@[i as int]);
            return false;
        }
        i += 1;
    }
    assert(s@.skip(off as int) =~= p@);
    true
}

pub fn contains_char(s: &[char], c: char) -> (b: bool)
    ensures
        b == s@.contains(c),
{
    let mut i: usize = 0;
    while i < s.len()
        invariant
            i <= s@.len(),
            forall|k: int| 0 <= k < i ==> s@[k] != c,
        decreases s@.len() - i,
    {
        if s[i] == c {
            return true;
        }
        i += 1;
    }
    false
}

/// `needle` occurs in `s` starting at position `i`.
pub open spec fn occurs_at(s: Chars, needle: Chars, i: int) -> bool {
    0 <= i && i + needle.len() <= s.len() && s.subrange(i, i + needle.len()) == needle
}

/// `str::find`: the first position where `needle` occurs.
#[verifier::opaque]
pub open spec fn find_first(s: Chars, needle: Chars) -> Option<int> {
    if exists|i: int| occurs_at(s, needle, i) {
        Some(choose|i: int| occurs_at(s, needle, i) && forall|k: int| 0 <= k < i ==> !occurs_at(s, needle, k))
    } else {
        None
    }
}

/// `str::rfind`: the last position where `needle` occurs.
#[verifier::opaque]
pub open spec fn find_last(s: Chars, needle: Chars) -> Option<int> {
    if exists|i: int| occurs_at(s, needle, i) {
        Some(choose|i: int| occurs_at(s, needle, i) && forall|k: int| i < k ==> !occurs_at(s, needle, k))
    } else {
        None
    }
}

pub fn occurs_at_exec(s: &[char], needle: &[char], i: usize) -> (b: bool)
    ensures
        b == occurs_at(s@, needle@, i as int),
{
    if i > s.len() || needle.len() > s.len() - i {
        return false;
    }
    let n = s.len();
    let mut k: usize = 0;
    while k < needle.len()
        invariant
            n == s@.len(),
            i + needle@.len() <= s@.len(),
            k <= needle@.len(),
            forall|m: int| 0 <= m < k ==> s@[i + m] == needle@[m],
        decreases needle@.len() - k,
    {
        if s[i + k] != needle[k] {
            assert(s@.subrange(i as int, i + needle@.len())[k as int] != needle@[k as int]);
            return false;
        }
        k += 1;
    }
    assert(s@.subrange(i as int, i + needle@.len()) =~= needle@);
    true
}

proof fn lemma_first_witness(s: Chars, needle: Chars, i: int)
    requires
        occurs_at(s, needle, i),
        forall|k: int| 0 <= k < i ==> !occurs_at(s, needle, k),
    ensures
        find_first(s, needle) == Some(i),
{
    reveal(find_first);
    reveal(find_last);
    let w = choose|j: int| occurs_at(s, needle, j) && forall|k: int| 0 <= k < j ==> !occurs_at(s, needle, k);
    assert(occurs_at(s, needle, w));
    if w < i {
        assert(!occurs_at(s, needle, w));
    } else if w > i {
        assert(!occurs_at(s, needle, i));
    }
}

proof fn lemma_last_witness(s: Chars, needle: Chars, i: int)
    requires
        occurs_at(s, needle, i),
        forall|k: int| i < k ==> !occurs_at(s, needle, k),
    ensures
        find_last(s, needle) == Some(i),
{
    reveal(find_first);
    reveal(find_last);
    let w = choose|j: int| occurs_at(s, needle, j) && forall|k: int| j < k ==> !occurs_at(s, needle, k);
    assert(occurs_at(s, needle, w));
    if w < i {
        assert(!occurs_at(s, needle, i));
    } else if w > i {
        assert(!occurs_at(s, needle, w));
    }
}

pub fn find_first_exec(s: &[char], needle: &[char]) -> (r: Option<usize>)
    ensures
        r matches Some(i) ==> occurs_at(s@, needle@, i as int),
        r matches Some(i) ==> find_first(s@, needle@) == Some(i as int),
        r is None ==> find_first(s@, needle@) is None,
{
    reveal(find_first);
    reveal(find_last);
    if needle.len() > s.len() {
        assert forall|k: int| !occurs_at(s@, needle@, k) by {}
        return None;
    }
    let last = s.len() - needle.len();
    let mut i: usize = 0;
    while i <= last
        invariant
            last == s@.len() - needle@.len(),
            i <= last + 1,
            forall|k: int| 0 <= k < i ==> !occurs_at(s@, needle@, k),
        decreases last + 1 - i,
    {
        if occurs_at_exec(s, needle, i) {
            proof {
                lemma_first_witness(s@, needle@, i as int);
            }
            return Some(i);
        }
        if i == last {
            assert forall|k: int| !occurs_at(s@, needle@, k) by {
                if 0 <= k && k < i {
                } else if k == i {
                }
            }
            proof {
                reveal(find_first);
            }
            return None;
        }
        i += 1;
    }
    None
}

pub fn find_last_exec(s: &[char], needle: &[char]) -> (r: Option<usize>)
    ensures
        r matches Some(i) ==> occurs_at(s@, needle@, i as int),
        r matches Some(i) ==> find_last(s@, needle@) == Some(i as int),
        r is None ==> find_last(s@, needle@) is None,
{
    reveal(find_first);
    reveal(find_last);
    if needle.len() > s.len() {
        assert forall|k: int| !occurs_at(s@, needle@, k) by {}
        return None;
    }
    let mut i: usize = s.len() - needle.len();
    loop
        invariant
            i + needle@.len() <= s@.len(),
            forall|k: int| i < k ==> !occurs_at(s@, needle@, k),
        decreases i,
    {
        if occurs_at_exec(s, needle, i) {
            proof {
                lemma_last_witness(s@, needle@, i as int);
            }
            return Some(i);
        }
        if i == 0 {
            assert forall|k: int| !occurs_at(s@, needle@, k) by {
                if k >= 0 {
                }
            }
            proof {
                reveal(find_last);
            }
            return None;
        }
        i -= 1;
    }
}

// ---------------------------------------------------------------------------
// Splitting and joining
// ---------------------------------------------------------------------------

/// `str::split(sep)` on a single character: the pieces between separators.
pub open spec fn split_char(s: Chars, sep: char) -> Seq<Chars>
    decreases s.len(),
{
    if s.len() == 0 {
        seq![Seq::<char>::empty()]
    } else {
        let rest = split_char(s.drop_last(), sep);
        if s.last() == sep {
            rest.push(Seq::<char>::empty())
        } else {
            rest.update(rest.len() - 1, rest.last().push(s.last()))
        }
    }
}

pub proof fn lemma_split_char_nonempty(s: Chars, sep: char)
    ensures
        split_char(s, sep).len() >= 1,
    decreases s.len(),
{
    if s.len() > 0 {
        lemma_split_char_nonempty(s.drop_last(), sep);
    }
}

/// Splits a character slice on `sep`.
pub fn split_chars(s: &[char], sep: char) -> (parts: Vec<Vec<char>>)
    ensures
        parts@.map_values(|p: Vec<char>| p@) == split_char(s@, sep),
{
    let mut parts: Vec<Vec<char>> = Vec::new();
    let mut cur: Vec<char> = Vec::new();
    let mut i: usize = 0;
    while i < s.len()
        invariant
            i <= s@.len(),
            parts@.map_values(|p: Vec<char>| p@).push(cur@) == split_char(s@.take(i as int), sep),
        decreases s@.len() - i,
    {
        proof {
            assert(s@.take(i + 1).drop_last() =~= s@.take(i as int));
            lemma_split_char_nonempty(s@.take(i as int), sep);
        }
        let ghost before = parts@.map_values(|p: Vec<char>| p@).push(cur@);
        if s[i] == sep {
            let done = cur;
            parts.push(done);
            cur = Vec::new();
            assert(parts@.map_values(|p: Vec<char>| p@).push(cur@) =~= before.push(
                Seq::<char>::empty(),
            ));
        } else {
            cur.push(s[i]);
            assert(parts@.map_values(|p: Vec<char>| p@).push(cur@) =~= before.update(
                before.len() - 1,
                before.last().push(s@[i as int]),
            ));
        }
        i += 1;
    }
    assert(s@.take(s@.len() as int) =~= s@);
    parts.push(cur);
    parts
}

/// `slice.join(sep)` for text pieces.
pub open spec fn join(parts: Seq<Chars>, sep: Chars) -> Chars
    decreases parts.len(),
{
    if parts.len() == 0 {
        Seq::<char>::empty()
    } else if parts.len() == 1 {
        parts[0]
    } else {
        join(parts.drop_last(), sep) + sep + parts.last()
    }
}

/// Joins character vectors with a separator.
pub fn join_chars(parts: &Vec<Vec<char>>, sep: &[char]) -> (r: Vec<char>)
    ensures
        r@ == join(parts@.map_values(|p: Vec<char>| p@), sep@),
{
    let ghost views = parts@.map_values(|p: Vec<char>| p@);
    let mut r: Vec<char> = Vec::new();
    let mut i: usize = 0;
    while i < parts.len()
        invariant
            i <= parts@.len(),
            views == parts@.map_values(|p: Vec<char>| p@),
            r@ == join(views.take(i as int), sep@),
        decreases parts@.len() - i,
    {
        assert(views.take(i + 1).drop_last() =~= views.take(i as int));
        if i > 0 {
            append_chars(&mut r, sep);
        }
        append_chars(&mut r, parts[i].as_slice());
        proof {
            if i == 0 {
                assert(views.take(1) =~= seq![views[0]]);
            }
        }
        i += 1;
    }
    assert(views.take(parts@.len() as int) =~= views);
    r
}

/// Joins strings with a separator.
pub fn join_strings(parts: &Vec<String>, sep: &str) -> (r: String)
    ensures
        r@ == join(parts@.map_values(|p: String| p@), sep@),
{
    let ghost views = parts@.map_values(|p: String| p@);
    let mut r = String::new();
    let mut i: usize = 0;
    while i < parts.len()
        invariant
            i <= parts@.len(),
            views == parts@.map_values(|p: String| p@),
            r@ == join(views.take(i as int), sep@),
        decreases parts@.len() - i,
    {
        assert(views.take(i + 1).drop_last() =~= views.take(i as int));
        if i > 0 {
            append_str(&mut r, sep);
        }
        append_str(&mut r, parts[i].as_str());
        proof {
            if i == 0 {
                assert(views.take(1) =~= seq![views[0]]);
            }
        }
        i += 1;
    }
    assert(views.take(parts@.len() as int) =~= views);
    r
}

// ---------------------------------------------------------------------------
// Per-character rewriting
// ---------------------------------------------------------------------------

/// Replaces every `from` with `to`.
pub open spec fn replace_char(s: Chars, from: char, to: char) -> Chars {
    s.map_values(|c: char| if c == from { to } else { c })
}

pub fn replace_char_chars(s: &[char], from: char, to: char) -> (r: Vec<char>)
    ensures
        r@ == replace_char(s@, from, to),
{
    let mut r: Vec<char> = Vec::new();
    let mut i: usize = 0;
    while i < s.len()
        invariant
            i <= s@.len(),
            r@ == replace_char(s@.take(i as int), from, to),
        decreases s@.len() - i,
    {
        let c = s[i];
        r.push(if c == from { to } else { c });
        assert(replace_char(s@.take(i + 1), from, to) =~= replace_char(s@.take(i as int), from, to).push(
            if c == from { to } else { c },
        ));
        i += 1;
    }
    assert(s@.take(s@.len() as int) =~= s@);
    r
}

// ---------------------------------------------------------------------------
// Decimal numbers
// ---------------------------------------------------------------------------

pub open spec fn digit_of(d: nat) -> char {
    if d == 0 {
        '0'
    } else if d == 1 {
        '1'
    } else if d == 2 {
        '2'
    } else if d == 3 {
        '3'
    } else if d == 4 {
        '4'
    } else if d == 5 {
        '5'
    } else if d == 6 {
        '6'
    } else if d == 7 {
        '7'
    } else if d == 8 {
        '8'
    } else {
        '9'
    }
}

/// Decimal notation of a natural number, as `u64`'s `Display` writes it.
pub open spec fn decimal(n: nat) -> Chars
    decreases n,
{
    if n < 10 {
        seq![digit_of(n)]
    } else {
        decimal(n / 10).push(digit_of(n % 10))
    }
}

pub fn digit_exec(d: u64) -> (c: char)
    requires
        d < 10,
    ensures
        c == digit_of(d as nat),
{
    if d == 0 {
        '0'
    } else if d == 1 {
        '1'
    } else if d == 2 {
        '2'
    } else if d == 3 {
        '3'
    } else if d == 4 {
        '4'
    } else if d == 5 {
        '5'
    } else if d == 6 {
        '6'
    } else if d == 7 {
        '7'
    } else if d == 8 {
        '8'
    } else {
        '9'
    }
}

/// Writes `n` in decimal.
pub fn decimal_string(n: u64) -> (s: String)
    ensures
        s@ == decimal(n as nat),
    decreases n,
{
    if n < 10 {
        let mut s = String::new();
        push_char(&mut s, digit_exec(n));
        assert(s@ =~= seq![digit_of(n as nat)]);
        s
    } else {
        let mut s = decimal_string(n / 10);
        push_char(&mut s, digit_exec(n % 10));
        s
    }
}

} // verus!

verus! {

/// The text of the error that `std::str::from_utf8` reports for `bytes`
/// (what its `Display` writes).
pub uninterp spec fn utf8_error_text(bytes: Seq<u8>) -> Chars;

/// `std::str::from_utf8`: succeeds exactly on valid UTF-8 and then decodes it;
/// on failure it hands back the error's text.
#[verifier::external_body]
pub(crate) fn decode_utf8_bytes(bytes: &[u8]) -> (r: Result<&str, String>)
    ensures
        r is Ok <==> vstd::utf8::valid_utf8(bytes@),
        r matches Ok(s) ==> s@ == vstd::utf8::decode_utf8(bytes@),
        r matches Err(e) ==> e@ == utf8_error_text(bytes@),
{
    std::str::from_utf8(bytes).map_err(|err| err.to_string())
}

} // verus!

verus! {

/// Compares characters with a literal.
pub fn eq_lit(v: &[char], lit: &str) -> (b: bool)
    ensures
        b == (v@ == lit@),
{
    let l = chars_of(lit);
    chars_eq(v, l.as_slice())
}

/// Whether characters start with a literal.
pub fn starts_with_lit(v: &[char], lit: &str) -> (b: bool)
    ensures
        b == starts_with(v@, lit@),
{
    let l = chars_of(lit);
    starts_with_chars(v, l.as_slice())
}

/// Drops one trailing `\r`.
pub open spec fn strip_cr(s: Chars) -> Chars {
    if s.len() > 0 && s.last() == '\r' {
        s.drop_last()
    } else {
        s
    }
}

/// `str::lines`: the pieces between `\n`, each without the `\r` of a `\r\n`
/// ending; no empty piece after a final `\n`.
pub open spec fn lines(text: Chars) -> Seq<Chars> {
    let parts = split_char(text, '\n');
    let n = parts.len();
    let count: int = if n > 0 && parts[n - 1].len() == 0 { n - 1 } else { n as int };
    Seq::new(count as nat, |i: int| if i < n - 1 { strip_cr(parts[i]) } else { parts[i] })
}

/// Splits text into lines as `str::lines` does.
pub fn lines_of(text: &[char]) -> (r: Vec<Vec<char>>)
    ensures
        r@.map_values(|p: Vec<char>| p@) == lines(text@),
{
    let parts = split_chars(text, '\n');
    proof {
        lemma_split_char_nonempty(text@, '\n');
    }
    let ghost pv = parts@.map_values(|p: Vec<char>| p@);
    let n = parts.len();
    let count: usize = if n > 0 && parts[n - 1].len() == 0 { n - 1 } else { n };
    let mut r: Vec<Vec<char>> = Vec::new();
    let mut i: usize = 0;
    while i < count
        invariant
            count <= n,
            n == parts@.len(),
            n >= 1,
            pv == parts@.map_values(|p: Vec<char>| p@),
            pv == split_char(text@, '\n'),
            count as int == (if n > 0 && pv[n - 1].len() == 0 { n - 1 } else { n as int }),
            i <= count,
            r@.map_values(|p: Vec<char>| p@) == lines(text@).take(i as int),
        decreases count - i,
    {
        let p = &parts[i];
        let piece = if i + 1 < n && p.len() > 0 && p[p.len() - 1] == '\r' {
            sub_chars(p.as_slice(), 0, p.len() - 1)
        } else {
            sub_chars(p.as_slice(), 0, p.len())
        };
        assert(piece@ == lines(text@)[i as int]) by {
            assert(p@ == pv[i as int]);
            if i + 1 < n && p@.len() > 0 && p@.last() == '\r' {
                assert(piece@ =~= p@.drop_last());
            } else {
                assert(piece@ =~= p@);
            }
        }
        let ghost prev = r@.map_values(|p: Vec<char>| p@);
        r.push(piece);
        assert(r@.map_values(|p: Vec<char>| p@) =~= prev.push(piece@));
        assert(lines(text@).take(i + 1) =~= lines(text@).take(i as int).push(lines(text@)[i as int]));
        i += 1;
    }
    assert(lines(text@).take(count as int) =~= lines(text@));
    r
}

/// The characters after the last `c`, or all of them when there is none
/// (`rsplit(c).next()`).
pub open spec fn after_last(s: Chars, c: char) -> Chars {
    split_char(s, c).last()
}

} // verus!

verus! {

/// Copies a vector of strings.
pub fn copy_strings(v: &Vec<String>) -> (r: Vec<String>)
    ensures
        r@.map_values(|s: String| s@) == v@.map_values(|s: String| s@),
{
    let mut r: Vec<String> = Vec::new();
    let mut i: usize = 0;
    while i < v.len()
        invariant
            i <= v@.len(),
            r@.map_values(|s: String| s@) == v@.map_values(|s: String| s@).take(i as int),
        decreases v@.len() - i,
    {
        let ghost prev = r@.map_values(|s: String| s@);
        r.push(v[i].clone());
        assert(r@.map_values(|s: String| s@) =~= prev.push(v@[i as int]@));
        assert(v@.map_values(|s: String| s@).take(i + 1) =~= v@.map_values(|s: String| s@).take(i as int).push(v@[i as int]@));
        i += 1;
    }
    assert(v@.map_values(|s: String| s@).take(v@.len() as int) =~= v@.map_values(|s: String| s@));
    r
}

/// Copies an optional string.
pub fn copy_opt_string(v: &Option<String>) -> (r: Option<String>)
    ensures
        r.is_some() == v.is_some(),
        r matches Some(x) ==> v.unwrap()@ == x@,
{
    match v {
        Some(s) => Some(s.clone()),
        None => None,
    }
}

} // verus!

verus! {

/// Appends copies of the strings of `src` to `dst`.
pub fn extend_strings(dst: &mut Vec<String>, src: &Vec<String>)
    ensures
        final(dst)@.map_values(|s: String| s@) == old(dst)@.map_values(|s: String| s@) + src@.map_values(|s: String| s@),
{
    let ghost start = dst@.map_values(|s: String| s@);
    let ghost sv = src@.map_values(|s: String| s@);
    let mut i: usize = 0;
    while i < src.len()
        invariant
            i <= src@.len(),
            sv == src@.map_values(|s: String| s@),
            dst@.map_values(|s: String| s@) == start + sv.take(i as int),
        decreases src@.len() - i,
    {
        let ghost prev = dst@.map_values(|s: String| s@);
        dst.push(src[i].clone());
        assert(dst@.map_values(|s: String| s@) =~= prev.push(sv[i as int]));
        assert(start + sv.take(i + 1) =~= (start + sv.take(i as int)).push(sv[i as int]));
        i += 1;
    }
    assert(sv.take(src@.len() as int) =~= sv);
}

/// Membership in a concatenation.
pub proof fn lemma_contains_concat<A>(a: Seq<A>, b: Seq<A>, x: A)
    ensures
        (a + b).contains(x) <==> (a.contains(x) || b.contains(x)),
{
    if (a + b).contains(x) {
        let i = choose|i: int| 0 <= i < (a + b).len() && (a + b)[i] == x;
        if i < a.len() {
            assert(a[i] == x);
        } else {
            assert(b[i - a.len()] == x);
        }
    }
    if a.contains(x) {
        let i = choose|i: int| 0 <= i < a.len() && a[i] == x;
        assert((a + b)[i] == x);
    }
    if b.contains(x) {
        let i = choose|i: int| 0 <= i < b.len() && b[i] == x;
        assert((a + b)[a.len() + i] == x);
    }
}

} // verus!

verus! {

/// Whether a vector of strings holds the string `s`.
pub fn contains_str(v: &Vec<String>, s: &str) -> (b: bool)
    ensures
        b == v@.map_values(|x: String| x@).contains(s@),
{
    let ghost vv = v@.map_values(|x: String| x@);
    let mut i: usize = 0;
    while i < v.len()
        invariant
            i <= v@.len(),
            vv == v@.map_values(|x: String| x@),
            forall|k: int| 0 <= k < i ==> vv[k] != s@,
        decreases v@.len() - i,
    {
        if str_eq(v[i].as_str(), s) {
            assert(vv[i as int] == s@);
            return true;
        }
        i += 1;
    }
    proof {
        if vv.contains(s@) {
            let k = choose|k: int| 0 <= k < vv.len() && vv[k] == s@;
            assert(vv[k] != s@);
        }
    }
    false
}

} // verus!

verus! {

proof fn lemma_trim_end_prefix(x: Chars)
    ensures
        trim_end(x).len() <= x.len(),
        trim_end(x) == x.take(trim_end(x).len() as int),
        trim_end(x).len() > 0 ==> !is_ws(trim_end(x).last()),
    decreases x.len(),
{
    if x.len() > 0 && is_ws(x.last()) {
        lemma_trim_end_prefix(x.drop_last());
        assert(x.drop_last().take(trim_end(x).len() as int) =~= x.take(trim_end(x).len() as int));
    } else {
        assert(x.take(x.len() as int) =~= x);
    }
}

proof fn lemma_trim_start_head(x: Chars)
    ensures
        trim_start(x).len() > 0 ==> !is_ws(trim_start(x)[0]),
    decreases x.len(),
{
    if x.len() > 0 && is_ws(x[0]) {
        lemma_trim_start_head(x.drop_first());
    }
}

/// Trimming twice is trimming once.
pub proof fn lemma_trim_idempotent(s: Chars)
    ensures
        trim(trim(s)) == trim(s),
{
    let y = trim_start(s);
    let z = trim_end(y);
    lemma_trim_start_head(s);
    lemma_trim_end_prefix(y);
    if z.len() > 0 {
        assert(z[0] == y[0]);
    }
    assert(trim_start(z) == z);
    assert(trim_end(z) == z);
}

} // verus!

verus! {

/// The last `width` decimal digits of `n`, zero-padded.
pub open spec fn fixed_digits(n: nat, width: nat) -> Chars
    decreases width,
{
    if width == 0 {
        Seq::empty()
    } else {
        fixed_digits(n / 10, (width - 1) as nat).push(digit_of(n % 10))
    }
}

/// Twenty zero-padded decimal digits: enough for any `u64`, and ordered as
/// the numbers are.
pub fn padded_decimal(n: u64) -> (v: Vec<char>)
    ensures
        v@ == fixed_digits(n as nat, 20),
{
    let mut digits: Vec<char> = Vec::new();
    let mut m = n;
    let mut k: u64 = 0;
    let ghost mut ns: Seq<nat> = seq![n as nat];
    while k < 20
        invariant
            k <= 20,
            ns.len() == k + 1,
            ns[0] == n as nat,
            ns[k as int] == m as nat,
            forall|j: int| 0 <= j < k ==> #[trigger] ns[j + 1] == ns[j] / 10,
            digits@.len() == k,
            forall|j: int| 0 <= j < k ==> #[trigger] digits@[j] == digit_of(ns[j] % 10),
        decreases 20 - k,
    {
        digits.push(digit_exec(m % 10));
        proof {
            ns = ns.push((m / 10) as nat);
        }
        m = m / 10;
        k += 1;
    }
    let mut v: Vec<char> = Vec::new();
    let mut i: usize = 20;
    while i > 0
        invariant
            i <= 20,
            digits@.len() == 20,
            ns.len() == 21,
            ns[0] == n as nat,
            forall|j: int| 0 <= j < 20 ==> #[trigger] ns[j + 1] == ns[j] / 10,
            forall|j: int| 0 <= j < 20 ==> #[trigger] digits@[j] == digit_of(ns[j] % 10),
            v@ == fixed_digits(ns[i as int], (20 - i) as nat),
        decreases i,
    {
        i -= 1;
        v.push(digits[i]);
        proof {
            assert(ns[i + 1] == ns[i as int] / 10);
            assert(fixed_digits(ns[i as int], (20 - i) as nat) == fixed_digits(ns[i as int] / 10, (20 - i - 1) as nat).push(
                digit_of(ns[i as int] % 10),
            ));
        }
    }
    v
}

} // verus!

verus! {

// ---------------------------------------------------------------------------
// Splitting what was joined
// ---------------------------------------------------------------------------

/// Appending text without the separator extends the last piece.
pub proof fn lemma_split_append(a: Chars, b: Chars, sep: char)
    requires
        !b.contains(sep),
    ensures
        split_char(a + b, sep) == split_char(a, sep).update(
            split_char(a, sep).len() - 1,
            split_char(a, sep).last() + b,
        ),
    decreases b.len(),
{
    lemma_split_char_nonempty(a, sep);
    let sa = split_char(a, sep);
    if b.len() == 0 {
        assert(a + b =~= a);
        assert(sa.last() + b =~= sa.last());
        assert(sa.update(sa.len() - 1, sa.last()) =~= sa);
    } else {
        let b0 = b.drop_last();
        assert(!b0.contains(sep)) by {
            if b0.contains(sep) {
                let k = choose|k: int| 0 <= k < b0.len() && b0[k] == sep;
                assert(b[k] == sep);
            }
        }
        assert(b[b.len() - 1] == b.last());
        assert(b.contains(b.last()));
        assert(b.last() != sep);
        lemma_split_append(a, b0, sep);
        assert((a + b).drop_last() =~= a + b0);
        assert((a + b).last() == b.last());
        let rest = split_char(a + b0, sep);
        assert(rest == sa.update(sa.len() - 1, sa.last() + b0));
        assert(rest.len() == sa.len());
        assert(rest.last() == sa.last() + b0);
        assert(split_char(a + b, sep) == rest.update(rest.len() - 1, rest.last().push(b.last())));
        assert((sa.last() + b0).push(b.last()) =~= sa.last() + b);
        assert(rest.update(rest.len() - 1, rest.last().push(b.last())) =~= sa.update(sa.len() - 1, sa.last() + b));
    }
}

/// A piece of a split never holds the separator.
pub proof fn lemma_split_pieces(s: Chars, sep: char)
    ensures
        forall|i: int, c: char|
            0 <= i < split_char(s, sep).len() && #[trigger] split_char(s, sep)[i].contains(c) ==> c != sep && s.contains(c),
    decreases s.len(),
{
    lemma_split_char_nonempty(s, sep);
    if s.len() > 0 {
        let s0 = s.drop_last();
        lemma_split_pieces(s0, sep);
        lemma_split_char_nonempty(s0, sep);
        let r = split_char(s0, sep);
        assert forall|i: int, c: char|
            0 <= i < split_char(s, sep).len() && #[trigger] split_char(s, sep)[i].contains(c) implies c != sep && s.contains(c) by {
            let p = split_char(s, sep)[i];
            let k = choose|k: int| 0 <= k < p.len() && p[k] == c;
            if s.last() == sep {
                if i < r.len() {
                    assert(r[i].contains(c));
                    let j = choose|j: int| 0 <= j < s0.len() && s0[j] == c;
                    assert(s[j] == c);
                }
            } else {
                if i < r.len() - 1 {
                    assert(r[i] == p);
                    assert(r[i].contains(c));
                    let j = choose|j: int| 0 <= j < s0.len() && s0[j] == c;
                    assert(s[j] == c);
                } else {
                    assert(p == r.last().push(s.last()));
                    if k < r.last().len() {
                        assert(r.last()[k] == c);
                        assert(r[r.len() - 1].contains(c));
                        let j = choose|j: int| 0 <= j < s0.len() && s0[j] == c;
                        assert(s[j] == c);
                    } else {
                        assert(c == s.last());
                        assert(s[s.len() - 1] == c);
                    }
                }
            }
        }
    }
}

/// Splitting pieces joined with a separator they do not hold gives them back.
pub proof fn lemma_split_join(parts: Seq<Chars>, sep: char)
    requires
        parts.len() >= 1,
        forall|i: int| 0 <= i < parts.len() ==> !(#[trigger] parts[i]).contains(sep),
    ensures
        split_char(join(parts, seq![sep]), sep) == parts,
    decreases parts.len(),
{
    if parts.len() == 1 {
        lemma_split_append(Seq::empty(), parts[0], sep);
        assert(Seq::<char>::empty() + parts[0] =~= parts[0]);
        assert(split_char(Seq::<char>::empty(), sep) == seq![Seq::<char>::empty()]);
        assert(split_char(Seq::<char>::empty(), sep).last() + parts[0] =~= parts[0]);
        assert(seq![Seq::<char>::empty()].update(0, parts[0]) =~= parts);
    } else {
        let init = parts.drop_last();
        assert forall|i: int| 0 <= i < init.len() implies !(#[trigger] init[i]).contains(sep) by {
            assert(init[i] == parts[i]);
        }
        lemma_split_join(init, sep);
        let a = join(init, seq![sep]);
        let a1 = a + seq![sep];
        assert(a1.drop_last() =~= a);
        assert(a1.last() == sep);
        assert(split_char(a1, sep) == split_char(a, sep).push(Seq::<char>::empty()));
        assert(!parts.last().contains(sep));
        lemma_split_append(a1, parts.last(), sep);
        assert(join(parts, seq![sep]) == a + seq![sep] + parts.last());
        assert(Seq::<char>::empty() + parts.last() =~= parts.last());
        assert(init.push(Seq::<char>::empty()).update(init.len() as int, parts.last()) =~= parts);
    }
}

/// Every character of a join is the separator or a character of a piece.
pub proof fn lemma_join_chars(parts: Seq<Chars>, sep: char, c: char)
    requires
        join(parts, seq![sep]).contains(c),
    ensures
        c == sep || exists|i: int| 0 <= i < parts.len() && (#[trigger] parts[i]).contains(c),
    decreases parts.len(),
{
    if parts.len() == 1 {
        assert(parts[0].contains(c));
    } else if parts.len() > 1 {
        let init = parts.drop_last();
        let j = join(parts, seq![sep]);
        let a = join(init, seq![sep]);
        assert(j == a + seq![sep] + parts.last());
        let k = choose|k: int| 0 <= k < j.len() && j[k] == c;
        if k < a.len() {
            assert(a[k] == c);
            lemma_join_chars(init, sep, c);
            if c != sep {
                let i = choose|i: int| 0 <= i < init.len() && (#[trigger] init[i]).contains(c);
                assert(parts[i] == init[i]);
            }
        } else if k > a.len() {
            assert(parts.last()[k - a.len() - 1] == c);
            assert(parts[parts.len() - 1].contains(c));
        }
    }
}

/// A join of two or more pieces holds the separator.
pub proof fn lemma_join_has_sep(parts: Seq<Chars>, sep: char)
    requires
        parts.len() >= 2,
    ensures
        join(parts, seq![sep]).contains(sep),
{
    let a = join(parts.drop_last(), seq![sep]);
    let j = join(parts, seq![sep]);
    assert(j == a + seq![sep] + parts.last());
    assert(j[a.len() as int] == sep);
}

/// A join starts with the first piece's first character.
pub proof fn lemma_join_first(parts: Seq<Chars>, sep: char)
    requires
        parts.len() >= 1,
        parts[0].len() > 0,
    ensures
        join(parts, seq![sep]).len() > 0,
        join(parts, seq![sep])[0] == parts[0][0],
    decreases parts.len(),
{
    if parts.len() > 1 {
        let init = parts.drop_last();
        assert(init[0] == parts[0]);
        lemma_join_first(init, sep);
        let a = join(init, seq![sep]);
        assert(join(parts, seq![sep]) == a + seq![sep] + parts.last());
    }
}

} // verus!

verus! {

/// Joining the pieces of a split with the separator gives the text back.
pub proof fn lemma_join_split(s: Chars, sep: char)
    ensures
        join(split_char(s, sep), seq![sep]) == s,
    decreases s.len(),
{
    lemma_split_char_nonempty(s, sep);
    if s.len() > 0 {
        let s0 = s.drop_last();
        lemma_join_split(s0, sep);
        lemma_split_char_nonempty(s0, sep);
        let r = split_char(s0, sep);
        if s.last() == sep {
            let q = r.push(Seq::<char>::empty());
            assert(q.drop_last() =~= r);
            assert(join(q, seq![sep]) == join(r, seq![sep]) + seq![sep] + Seq::<char>::empty());
            assert(s0 + seq![sep] + Seq::<char>::empty() =~= s);
        } else {
            let q = r.update(r.len() - 1, r.last().push(s.last()));
            if r.len() == 1 {
                assert(join(q, seq![sep]) == q[0]);
                assert(q[0] =~= s);
            } else {
                assert(q.drop_last() =~= r.drop_last());
                assert(join(r, seq![sep]) == join(r.drop_last(), seq![sep]) + seq![sep] + r.last());
                assert(join(q, seq![sep]) == join(r.drop_last(), seq![sep]) + seq![sep] + r.last().push(s.last()));
                let a = join(r.drop_last(), seq![sep]);
                assert(s0 == a + seq![sep] + r.last());
                assert(s =~= s0.push(s.last()));
                assert((a + seq![sep] + r.last()).push(s.last()) =~= a + seq![sep] + r.last().push(s.last()));
            }
        }
    }
}

/// The join of the first `n` pieces, followed by the separator, starts the
/// join of all of them.
pub proof fn lemma_join_prefix(parts: Seq<Chars>, n: int, sep: char)
    requires
        1 <= n < parts.len(),
    ensures
        ({
            let x = join(parts.take(n), seq![sep]).push(sep);
            let y = join(parts, seq![sep]);
            x.len() <= y.len() && y.take(x.len() as int) == x
        }),
    decreases parts.len(),
{
    let init = parts.drop_last();
    let x = join(parts.take(n), seq![sep]).push(sep);
    let z = join(init, seq![sep]);
    let y = join(parts, seq![sep]);
    assert(y == z + seq![sep] + parts.last());
    if n == parts.len() - 1 {
        assert(parts.take(n) =~= init);
        assert(y.take(x.len() as int) =~= x);
    } else {
        lemma_join_prefix(init, n, sep);
        assert(init.take(n) =~= parts.take(n));
        assert(z.take(x.len() as int) == x);
        assert(y.take(x.len() as int) =~= z.take(x.len() as int));
    }
}

} // verus!
