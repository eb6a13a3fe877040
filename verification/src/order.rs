//! The order in which the knowledge base writes its records, and the
//! sort-and-deduplicate step that every listing goes through.
use vstd::prelude::*;

use crate::text::{chars_of, Chars};

verus! {

/// Byte-wise order of UTF-8 strings, which is the order of their code points.
#[verifier::opaque]
pub open spec fn chars_lt(a: Chars, b: Chars) -> bool
    decreases a.len(),
{
    if a.len() == 0 {
        b.len() > 0
    } else if b.len() == 0 {
        false
    } else if a[0] != b[0] {
        (a[0] as u32) < (b[0] as u32)
    } else {
        chars_lt(a.drop_first(), b.drop_first())
    }
}

/// Lexicographic order of composite keys (one string per component).
#[verifier::opaque]
pub open spec fn key_lt(a: Seq<Chars>, b: Seq<Chars>) -> bool
    decreases a.len(),
{
    if a.len() == 0 {
        b.len() > 0
    } else if b.len() == 0 {
        false
    } else if a[0] != b[0] {
        chars_lt(a[0], b[0])
    } else {
        key_lt(a.drop_first(), b.drop_first())
    }
}

/// Distinct characters have distinct code points.
pub proof fn lemma_char_code_injective(a: char, b: char)
    ensures
        (a as u32) == (b as u32) ==> a == b,
{
}

pub proof fn lemma_chars_lt_irrefl(a: Chars)
    ensures
        !chars_lt(a, a),
    decreases a.len(),
{
    reveal(chars_lt);
    if a.len() > 0 {
        lemma_chars_lt_irrefl(a.drop_first());
    }
}

pub proof fn lemma_chars_lt_trans(a: Chars, b: Chars, c: Chars)
    requires
        chars_lt(a, b),
        chars_lt(b, c),
    ensures
        chars_lt(a, c),
    decreases a.len(),
{
    reveal(chars_lt);
    if a.len() > 0 && b.len() > 0 && c.len() > 0 {
        if a[0] == b[0] && b[0] == c[0] {
            lemma_chars_lt_trans(a.drop_first(), b.drop_first(), c.drop_first());
        }
    }
}

pub proof fn lemma_chars_lt_total(a: Chars, b: Chars)
    ensures
        a == b || chars_lt(a, b) || chars_lt(b, a),
    decreases a.len(),
{
    reveal(chars_lt);
    if a.len() > 0 && b.len() > 0 && a[0] == b[0] {
        lemma_chars_lt_total(a.drop_first(), b.drop_first());
        if a.drop_first() == b.drop_first() {
            assert(a =~= seq![a[0]] + a.drop_first());
            assert(b =~= seq![b[0]] + b.drop_first());
        }
    } else if a.len() == 0 && b.len() == 0 {
        assert(a =~= b);
    } else if a.len() > 0 && b.len() > 0 {
        lemma_char_code_injective(a[0], b[0]);
    }
}

pub proof fn lemma_chars_lt_asym(a: Chars, b: Chars)
    ensures
        !(chars_lt(a, b) && chars_lt(b, a)),
{
    if chars_lt(a, b) && chars_lt(b, a) {
        lemma_chars_lt_trans(a, b, a);
        lemma_chars_lt_irrefl(a);
    }
}

pub proof fn lemma_key_lt_irrefl(a: Seq<Chars>)
    ensures
        !key_lt(a, a),
    decreases a.len(),
{
    reveal(key_lt);
    if a.len() > 0 {
        lemma_key_lt_irrefl(a.drop_first());
    }
}

pub proof fn lemma_key_lt_trans(a: Seq<Chars>, b: Seq<Chars>, c: Seq<Chars>)
    requires
        key_lt(a, b),
        key_lt(b, c),
    ensures
        key_lt(a, c),
    decreases a.len(),
{
    reveal(key_lt);
    if a.len() > 0 && b.len() > 0 && c.len() > 0 {
        if a[0] == b[0] && b[0] == c[0] {
            lemma_key_lt_trans(a.drop_first(), b.drop_first(), c.drop_first());
        } else if a[0] == b[0] {
        } else if b[0] == c[0] {
        } else {
            lemma_chars_lt_trans(a[0], b[0], c[0]);
            if a[0] == c[0] {
                lemma_chars_lt_asym(a[0], b[0]);
            }
        }
    }
}

pub proof fn lemma_key_lt_total(a: Seq<Chars>, b: Seq<Chars>)
    ensures
        a == b || key_lt(a, b) || key_lt(b, a),
    decreases a.len(),
{
    reveal(key_lt);
    if a.len() > 0 && b.len() > 0 {
        if a[0] == b[0] {
            lemma_key_lt_total(a.drop_first(), b.drop_first());
            if a.drop_first() == b.drop_first() {
                assert(a =~= seq![a[0]] + a.drop_first());
                assert(b =~= seq![b[0]] + b.drop_first());
            }
        } else {
            lemma_chars_lt_total(a[0], b[0]);
        }
    } else if a.len() == 0 && b.len() == 0 {
        assert(a =~= b);
    }
}

pub proof fn lemma_key_lt_asym(a: Seq<Chars>, b: Seq<Chars>)
    ensures
        !(key_lt(a, b) && key_lt(b, a)),
{
    if key_lt(a, b) && key_lt(b, a) {
        lemma_key_lt_trans(a, b, a);
        lemma_key_lt_irrefl(a);
    }
}

/// Three-way comparison of character slices: negative, zero or positive.
pub fn compare_chars(a: &[char], b: &[char]) -> (r: i8)
    ensures
        r < 0 <==> chars_lt(a@, b@),
        r == 0 <==> a@ == b@,
        r > 0 <==> chars_lt(b@, a@),
{
    reveal(chars_lt);
    let mut i: usize = 0;
    assert(a@.skip(0) =~= a@);
    assert(b@.skip(0) =~= b@);
    while i < a.len() && i < b.len() && a[i] == b[i]
        invariant
            i <= a@.len(),
            i <= b@.len(),
            forall|k: int| 0 <= k < i ==> a@[k] == b@[k],
            chars_lt(a@, b@) == chars_lt(a@.skip(i as int), b@.skip(i as int)),
            chars_lt(b@, a@) == chars_lt(b@.skip(i as int), a@.skip(i as int)),
        decreases a@.len() - i,
    {
        reveal(chars_lt);
        assert(a@.skip(i as int).drop_first() =~= a@.skip(i + 1));
        assert(b@.skip(i as int).drop_first() =~= b@.skip(i + 1));
        i += 1;
    }
    proof {
        reveal(chars_lt);
        lemma_chars_lt_irrefl(a@);
        lemma_chars_lt_asym(a@, b@);
    }
    if i < a.len() && i < b.len() {
        assert(a@.skip(i as int)[0] == a@[i as int]);
        assert(b@.skip(i as int)[0] == b@[i as int]);
        proof {
            lemma_char_code_injective(a@[i as int], b@[i as int]);
        }
        if (a[i] as u32) < (b[i] as u32) {
            -1
        } else {
            1
        }
    } else if i < a.len() {
        1
    } else if i < b.len() {
        -1
    } else {
        assert(a@ =~= b@);
        0
    }
}

/// The view of an executable key.
pub open spec fn key_view(k: Vec<Vec<char>>) -> Seq<Chars> {
    k@.map_values(|c: Vec<char>| c@)
}

/// Three-way comparison of composite keys.
pub fn compare_keys(a: &Vec<Vec<char>>, b: &Vec<Vec<char>>) -> (r: i8)
    ensures
        r < 0 <==> key_lt(key_view(*a), key_view(*b)),
        r == 0 <==> key_view(*a) == key_view(*b),
        r > 0 <==> key_lt(key_view(*b), key_view(*a)),
{
    reveal(key_lt);
    let ghost ka = key_view(*a);
    let ghost kb = key_view(*b);
    let mut i: usize = 0;
    assert(ka.skip(0) =~= ka);
    assert(kb.skip(0) =~= kb);
    loop
        invariant
            i <= a@.len(),
            i <= b@.len(),
            ka == key_view(*a),
            kb == key_view(*b),
            forall|k: int| 0 <= k < i ==> ka[k] == kb[k],
            key_lt(ka, kb) == key_lt(ka.skip(i as int), kb.skip(i as int)),
            key_lt(kb, ka) == key_lt(kb.skip(i as int), ka.skip(i as int)),
        decreases a@.len() - i,
    {
        proof {
            reveal(key_lt);
            lemma_key_lt_irrefl(ka);
            lemma_key_lt_asym(ka, kb);
        }
        if i == a.len() || i == b.len() {
            if i < b.len() {
                return -1;
            } else if i < a.len() {
                return 1;
            } else {
                assert(ka =~= kb);
                return 0;
            }
        }
        let c = compare_chars(a[i].as_slice(), b[i].as_slice());
        assert(ka.skip(i as int)[0] == ka[i as int]);
        assert(kb.skip(i as int)[0] == kb[i as int]);
        if c < 0 {
            return -1;
        } else if c > 0 {
            return 1;
        }
        assert(ka.skip(i as int).drop_first() =~= ka.skip(i + 1));
        assert(kb.skip(i as int).drop_first() =~= kb.skip(i + 1));
        i += 1;
    }
}

/// Records that are listed in a fixed order: by a composite key of strings.
pub trait SortKey {
    spec fn key(&self) -> Seq<Chars>;

    fn exec_key(&self) -> (k: Vec<Vec<char>>)
        ensures
            key_view(k) == self.key(),
    ;
}

impl SortKey for String {
    open spec fn key(&self) -> Seq<Chars> {
        seq![self@]
    }

    fn exec_key(&self) -> (k: Vec<Vec<char>>)
    {
        let mut k: Vec<Vec<char>> = Vec::new();
        k.push(chars_of(self.as_str()));
        assert(key_view(k) =~= seq![self@]);
        k
    }
}

/// `t` has the key `k`.
pub open spec fn has_key<T: SortKey>(t: T, k: Seq<Chars>) -> bool {
    t.key() == k
}

/// Keys strictly increase along `s`.
pub open spec fn strictly_sorted_by_key<T: SortKey>(s: Seq<T>) -> bool {
    forall|i: int, j: int| 0 <= i < j < s.len() ==> key_lt(#[trigger] s[i].key(), #[trigger] s[j].key())
}

/// `inp[j]` is the first element of `inp[from..]` with its key.
pub open spec fn first_of_key<T: SortKey>(inp: Seq<T>, from: int, j: int) -> bool {
    &&& from <= j < inp.len()
    &&& forall|k: int| from <= k < j ==> #[trigger] inp[k].key() != inp[j].key()
}

/// Every element of `out` is the first element of `inp[from..]` with its key.
#[verifier::opaque]
pub open spec fn drawn_from_firsts<T: SortKey>(out: Seq<T>, inp: Seq<T>, from: int) -> bool {
    forall|i: int|
        #![trigger out[i]]
        0 <= i < out.len() ==> exists|j: int| #![trigger inp[j]] first_of_key(inp, from, j) && out[i] == inp[j]
}

/// Every key of `inp[from..]` is the key of some element of `out`.
#[verifier::opaque]
pub open spec fn covers_keys<T: SortKey>(out: Seq<T>, inp: Seq<T>, from: int) -> bool {
    forall|j: int|
        #![trigger inp[j]]
        from <= j < inp.len() ==> exists|i: int| 0 <= i < out.len() && #[trigger] out[i].key() == inp[j].key()
}

/// `out` is what sorting `inp[from..]` by key and then dropping later
/// elements of an equal key (`sort_by` + `dedup_by`) gives.
pub open spec fn sorted_unique_from<T: SortKey>(out: Seq<T>, inp: Seq<T>, from: int) -> bool {
    &&& strictly_sorted_by_key(out)
    &&& drawn_from_firsts(out, inp, from)
    &&& covers_keys(out, inp, from)
}

/// `out` is `inp` sorted by key with one element (the first) kept per key.
pub open spec fn sorted_unique<T: SortKey>(out: Seq<T>, inp: Seq<T>) -> bool {
    sorted_unique_from(out, inp, 0)
}

proof fn lemma_sorted_after_update<T: SortKey>(old_out: Seq<T>, p: int, x: T)
    requires
        0 <= p < old_out.len(),
        old_out[p].key() == x.key(),
        strictly_sorted_by_key(old_out),
    ensures
        strictly_sorted_by_key(old_out.update(p, x)),
{
    let out = old_out.update(p, x);
    assert forall|i: int, j: int| 0 <= i < j < out.len() implies key_lt(
        #[trigger] out[i].key(),
        #[trigger] out[j].key(),
    ) by {
        assert(key_lt(old_out[i].key(), old_out[j].key()));
    }
}

proof fn lemma_sources_after_update<T: SortKey>(old_out: Seq<T>, inp: Seq<T>, m: int, p: int)
    requires
        0 <= m < inp.len(),
        0 <= p < old_out.len(),
        old_out[p].key() == inp[m].key(),
        strictly_sorted_by_key(old_out),
        drawn_from_firsts(old_out, inp, m + 1),
    ensures
        drawn_from_firsts(old_out.update(p, inp[m]), inp, m),
{
    reveal(drawn_from_firsts);
    let out = old_out.update(p, inp[m]);
    assert forall|i: int| #![trigger out[i]] 0 <= i < old_out.len() implies exists|j: int|
        #![trigger inp[j]] first_of_key(inp, m, j) && out[i] == inp[j] by {
        if i == p {
            assert(first_of_key(inp, m, m));
        } else {
            assert(out[i] == old_out[i]);
            let j = choose|j: int| #![trigger inp[j]] first_of_key(inp, m + 1, j) && old_out[i] == inp[j];
            lemma_key_lt_irrefl(old_out[i].key());
            if i < p {
                assert(key_lt(old_out[i].key(), old_out[p].key()));
            } else {
                assert(key_lt(old_out[p].key(), old_out[i].key()));
            }
            assert(first_of_key(inp, m, j));
        }
    }
}

proof fn lemma_cover_after_update<T: SortKey>(old_out: Seq<T>, inp: Seq<T>, m: int, p: int)
    requires
        0 <= m < inp.len(),
        0 <= p < old_out.len(),
        old_out[p].key() == inp[m].key(),
        covers_keys(old_out, inp, m + 1),
    ensures
        covers_keys(old_out.update(p, inp[m]), inp, m),
{
    reveal(covers_keys);
    let out = old_out.update(p, inp[m]);
    assert forall|j: int| #![trigger inp[j]] m <= j < inp.len() implies exists|i: int|
        0 <= i < old_out.len() && #[trigger] out[i].key() == inp[j].key() by {
        if j == m {
            assert(out[p].key() == inp[j].key());
        } else {
            let i = choose|i: int| 0 <= i < old_out.len() && #[trigger] old_out[i].key() == inp[j].key();
            assert(out[i].key() == inp[j].key());
        }
    }
}

proof fn lemma_replace_step<T: SortKey>(old_out: Seq<T>, inp: Seq<T>, m: int, p: int)
    requires
        0 <= m < inp.len(),
        0 <= p < old_out.len(),
        old_out[p].key() == inp[m].key(),
        sorted_unique_from(old_out, inp, m + 1),
    ensures
        sorted_unique_from(old_out.update(p, inp[m]), inp, m),
{
    lemma_sorted_after_update(old_out, p, inp[m]);
    lemma_sources_after_update(old_out, inp, m, p);
    lemma_cover_after_update(old_out, inp, m, p);
}

proof fn lemma_sorted_after_insert<T: SortKey>(old_out: Seq<T>, p: int, x: T)
    requires
        0 <= p <= old_out.len(),
        forall|i: int| 0 <= i < p ==> key_lt(#[trigger] old_out[i].key(), x.key()),
        p < old_out.len() ==> key_lt(x.key(), old_out[p].key()),
        strictly_sorted_by_key(old_out),
    ensures
        strictly_sorted_by_key(old_out.insert(p, x)),
{
    let out = old_out.insert(p, x);
    assert forall|i: int, j: int| 0 <= i < j < out.len() implies key_lt(
        #[trigger] out[i].key(),
        #[trigger] out[j].key(),
    ) by {
        if j < p {
            assert(key_lt(old_out[i].key(), old_out[j].key()));
        } else if j == p {
            assert(key_lt(old_out[i].key(), x.key()));
        } else if i < p {
            assert(key_lt(old_out[i].key(), x.key()));
            assert(key_lt(x.key(), old_out[p].key()));
            if j - 1 > p {
                assert(key_lt(old_out[p].key(), old_out[j - 1].key()));
                lemma_key_lt_trans(x.key(), old_out[p].key(), old_out[j - 1].key());
            }
            lemma_key_lt_trans(old_out[i].key(), x.key(), old_out[j - 1].key());
        } else if i == p {
            assert(key_lt(x.key(), old_out[p].key()));
            if j - 1 > p {
                assert(key_lt(old_out[p].key(), old_out[j - 1].key()));
                lemma_key_lt_trans(x.key(), old_out[p].key(), old_out[j - 1].key());
            }
        } else {
            assert(key_lt(old_out[i - 1].key(), old_out[j - 1].key()));
        }
    }
}

proof fn lemma_sources_after_insert<T: SortKey>(old_out: Seq<T>, inp: Seq<T>, m: int, p: int)
    requires
        0 <= m < inp.len(),
        0 <= p <= old_out.len(),
        forall|i: int| 0 <= i < p ==> key_lt(#[trigger] old_out[i].key(), inp[m].key()),
        p < old_out.len() ==> key_lt(inp[m].key(), old_out[p].key()),
        strictly_sorted_by_key(old_out),
        drawn_from_firsts(old_out, inp, m + 1),
    ensures
        drawn_from_firsts(old_out.insert(p, inp[m]), inp, m),
{
    reveal(drawn_from_firsts);
    let x = inp[m];
    let out = old_out.insert(p, x);
    assert forall|i: int| #![trigger out[i]] 0 <= i < old_out.len() + 1 implies exists|j: int|
        #![trigger inp[j]] first_of_key(inp, m, j) && out[i] == inp[j] by {
        if i == p {
            assert(first_of_key(inp, m, m));
        } else {
            let oi = if i < p { i } else { i - 1 };
            assert(out[i] == old_out[oi]);
            let j = choose|j: int| #![trigger inp[j]] first_of_key(inp, m + 1, j) && old_out[oi] == inp[j];
            lemma_key_lt_irrefl(x.key());
            if oi < p {
                assert(key_lt(old_out[oi].key(), x.key()));
            } else {
                if oi > p {
                    assert(key_lt(old_out[p].key(), old_out[oi].key()));
                    lemma_key_lt_trans(x.key(), old_out[p].key(), old_out[oi].key());
                }
                assert(key_lt(x.key(), old_out[oi].key()));
            }
            assert(first_of_key(inp, m, j));
        }
    }
}

proof fn lemma_cover_after_insert<T: SortKey>(old_out: Seq<T>, inp: Seq<T>, m: int, p: int)
    requires
        0 <= m < inp.len(),
        0 <= p <= old_out.len(),
        covers_keys(old_out, inp, m + 1),
    ensures
        covers_keys(old_out.insert(p, inp[m]), inp, m),
{
    reveal(covers_keys);
    let out = old_out.insert(p, inp[m]);
    assert forall|j: int| #![trigger inp[j]] m <= j < inp.len() implies exists|i: int|
        0 <= i < old_out.len() + 1 && #[trigger] out[i].key() == inp[j].key() by {
        if j == m {
            assert(out[p].key() == inp[j].key());
        } else {
            let i = choose|i: int| 0 <= i < old_out.len() && #[trigger] old_out[i].key() == inp[j].key();
            if i < p {
                assert(out[i].key() == inp[j].key());
            } else {
                assert(out[i + 1].key() == inp[j].key());
            }
        }
    }
}

proof fn lemma_insert_step<T: SortKey>(old_out: Seq<T>, inp: Seq<T>, m: int, p: int)
    requires
        0 <= m < inp.len(),
        0 <= p <= old_out.len(),
        forall|i: int| 0 <= i < p ==> key_lt(#[trigger] old_out[i].key(), inp[m].key()),
        p < old_out.len() ==> key_lt(inp[m].key(), old_out[p].key()),
        sorted_unique_from(old_out, inp, m + 1),
    ensures
        sorted_unique_from(old_out.insert(p, inp[m]), inp, m),
{
    lemma_sorted_after_insert(old_out, p, inp[m]);
    lemma_sources_after_insert(old_out, inp, m, p);
    lemma_cover_after_insert(old_out, inp, m, p);
}

/// Sorts by key and keeps the first element of each key, as `sort_by` followed
/// by `dedup_by` on the same key does.
pub fn sort_unique_by_key<T: SortKey>(v: Vec<T>) -> (out: Vec<T>)
    ensures
        sorted_unique(out@, v@),
{
    let ghost inp = v@;
    let mut v = v;
    let mut out: Vec<T> = Vec::new();
    let mut keys: Vec<Vec<Vec<char>>> = Vec::new();
    proof {
        reveal(drawn_from_firsts);
        reveal(covers_keys);
        assert(v@ =~= inp.take(v@.len() as int));
    }
    while v.len() > 0
        invariant
            v@.len() <= inp.len(),
            v@ == inp.take(v@.len() as int),
            keys@.len() == out@.len(),
            forall|i: int| 0 <= i < keys@.len() ==> key_view(#[trigger] keys@[i]) == out@[i].key(),
            sorted_unique_from(out@, inp, v@.len() as int),
        decreases v@.len(),
    {
        let ghost m = v@.len() - 1;
        let x = v.pop().unwrap();
        assert(x == inp[m]);
        assert(v@ =~= inp.take(m));
        let k = x.exec_key();
        let mut p: usize = 0;
        while p < keys.len() && compare_keys(&keys[p], &k) < 0
            invariant
                p <= keys@.len(),
                keys@.len() == out@.len(),
                forall|i: int| 0 <= i < keys@.len() ==> key_view(#[trigger] keys@[i]) == out@[i].key(),
                forall|i: int| 0 <= i < p ==> key_lt(#[trigger] out@[i].key(), x.key()),
                key_view(k) == x.key(),
            decreases keys@.len() - p,
        {
            p += 1;
        }
        let ghost old_out = out@;
        let ghost old_keys = keys@;
        if p < keys.len() && compare_keys(&keys[p], &k) == 0 {
            proof {
                lemma_replace_step(old_out, inp, m, p as int);
            }
            out.set(p, x);
            keys.set(p, k);
        } else {
            proof {
                if p < keys.len() {
                    lemma_key_lt_total(old_out[p as int].key(), x.key());
                }
                lemma_insert_step(old_out, inp, m, p as int);
            }
            out.insert(p, x);
            keys.insert(p, k);
            assert forall|i: int| 0 <= i < keys@.len() implies key_view(#[trigger] keys@[i]) == out@[i].key() by {
                if i > p {
                    assert(keys@[i] == old_keys[i - 1]);
                }
            }
        }
    }
    out
}

/// The keys of a sequence of records.
pub open spec fn keys_of<T: SortKey>(s: Seq<T>) -> Seq<Seq<Chars>> {
    s.map_values(|t: T| t.key())
}

/// `out` lists, in increasing order and once each, the keys of `inp`.
pub open spec fn sorted_key_set_of(out: Seq<Seq<Chars>>, inp: Seq<Seq<Chars>>) -> bool {
    &&& forall|i: int, j: int| 0 <= i < j < out.len() ==> key_lt(#[trigger] out[i], #[trigger] out[j])
    &&& forall|x: Seq<Chars>| out.contains(x) <==> inp.contains(x)
}

/// What `sort_unique_by_key` keeps has, as keys, the sorted set of the input's keys.
pub proof fn lemma_sorted_unique_keys<T: SortKey>(out: Seq<T>, inp: Seq<T>)
    requires
        sorted_unique(out, inp),
    ensures
        sorted_key_set_of(keys_of(out), keys_of(inp)),
{
    reveal(drawn_from_firsts);
    reveal(covers_keys);
    let o = keys_of(out);
    let iv = keys_of(inp);
    assert forall|i: int, j: int| 0 <= i < j < o.len() implies key_lt(#[trigger] o[i], #[trigger] o[j]) by {
        assert(key_lt(out[i].key(), out[j].key()));
    }
    assert forall|x: Seq<Chars>| o.contains(x) implies iv.contains(x) by {
        let i = choose|i: int| 0 <= i < o.len() && o[i] == x;
        assert(out[i] == out[i]);
        let j = choose|j: int| first_of_key(inp, 0, j) && out[i] == inp[j];
        assert(iv[j] == x);
    }
    assert forall|x: Seq<Chars>| iv.contains(x) implies o.contains(x) by {
        let j = choose|j: int| 0 <= j < iv.len() && iv[j] == x;
        assert(inp[j] == inp[j]);
        let i = choose|i: int| 0 <= i < out.len() && #[trigger] out[i].key() == inp[j].key();
        assert(o[i] == x);
    }
}

// ---------------------------------------------------------------------------
// Sorted sets of strings
// ---------------------------------------------------------------------------

/// The views of a vector of strings.
pub open spec fn views(v: Seq<String>) -> Seq<Chars> {
    v.map_values(|s: String| s@)
}

/// Strings strictly increase along `s`.
pub open spec fn strictly_sorted(s: Seq<Chars>) -> bool {
    forall|i: int, j: int| 0 <= i < j < s.len() ==> chars_lt(#[trigger] s[i], #[trigger] s[j])
}

/// `out` lists, in increasing order and once each, the strings of `inp`
/// (what `sort()` followed by `dedup()` gives).
pub open spec fn sorted_set_of(out: Seq<Chars>, inp: Seq<Chars>) -> bool {
    &&& strictly_sorted(out)
    &&& forall|x: Chars| out.contains(x) <==> inp.contains(x)
}

/// Sorts strings and removes duplicates (`sort` + `dedup`).
proof fn lemma_string_keys(a: String, b: String)
    ensures
        key_lt(a.key(), b.key()) ==> chars_lt(a@, b@),
        a.key() == b.key() <==> a@ == b@,
{
    reveal_with_fuel(key_lt, 2);
    let ka = a.key();
    let kb = b.key();
    assert(ka.len() == 1 && ka[0] == a@);
    assert(kb.len() == 1 && kb[0] == b@);
    if key_lt(ka, kb) {
        if ka[0] == kb[0] {
            assert(ka.drop_first() =~= Seq::<Chars>::empty());
            assert(kb.drop_first() =~= Seq::<Chars>::empty());
        }
    }
    if a@ == b@ {
        assert(ka =~= kb);
    }
}

/// Sorts strings and removes duplicates (`sort` + `dedup`).
pub fn sort_dedup(v: Vec<String>) -> (out: Vec<String>)
    ensures
        sorted_set_of(views(out@), views(v@)),
{
    let ghost inp = v@;
    let out = sort_unique_by_key(v);
    proof {
        reveal(drawn_from_firsts);
        reveal(covers_keys);
        let o = views(out@);
        let iv = views(inp);
        assert forall|i: int, j: int| 0 <= i < j < o.len() implies chars_lt(#[trigger] o[i], #[trigger] o[j]) by {
            assert(key_lt(out@[i].key(), out@[j].key()));
            lemma_string_keys(out@[i], out@[j]);
        }
        assert forall|x: Chars| o.contains(x) implies iv.contains(x) by {
            let i = choose|i: int| 0 <= i < o.len() && o[i] == x;
            assert(out@[i] == out@[i]);
            let j = choose|j: int| first_of_key(inp, 0, j) && out@[i] == inp[j];
            assert(iv[j] == x);
        }
        assert forall|x: Chars| iv.contains(x) implies o.contains(x) by {
            let j = choose|j: int| 0 <= j < iv.len() && iv[j] == x;
            assert(inp[j] == inp[j]);
            let i = choose|i: int| 0 <= i < out@.len() && #[trigger] out@[i].key() == inp[j].key();
            lemma_string_keys(out@[i], inp[j]);
            assert(o[i] == x);
        }
    }
    out
}

proof fn lemma_sorted_eq_when_same_members(a: Seq<Chars>, b: Seq<Chars>)
    requires
        strictly_sorted(a),
        strictly_sorted(b),
        forall|x: Chars| a.contains(x) <==> b.contains(x),
    ensures
        a == b,
    decreases a.len(),
{
    if a.len() == 0 {
        if b.len() > 0 {
            assert(b.contains(b[0]));
        }
        assert(a =~= b);
    } else {
        assert(a.contains(a[0]));
        assert(b.len() > 0);
        assert(b.contains(b[0]));
        let ia = choose|i: int| 0 <= i < a.len() && a[i] == b[0];
        let ib = choose|i: int| 0 <= i < b.len() && b[i] == a[0];
        if ia > 0 {
            assert(chars_lt(a[0], a[ia]));
            if ib > 0 {
                assert(chars_lt(b[0], b[ib]));
                lemma_chars_lt_asym(a[0], b[0]);
            } else {
                lemma_chars_lt_irrefl(a[0]);
            }
        }
        assert(a[0] == b[0]);
        let a1 = a.drop_first();
        let b1 = b.drop_first();
        assert forall|x: Chars| a1.contains(x) <==> b1.contains(x) by {
            if a1.contains(x) {
                let i = choose|i: int| 0 <= i < a1.len() && a1[i] == x;
                assert(a[i + 1] == x);
                assert(chars_lt(a[0], a[i + 1]));
                lemma_chars_lt_irrefl(x);
                assert(b.contains(x));
                let k = choose|k: int| 0 <= k < b.len() && b[k] == x;
                assert(k != 0);
                assert(b1[k - 1] == x);
            }
            if b1.contains(x) {
                let i = choose|i: int| 0 <= i < b1.len() && b1[i] == x;
                assert(b[i + 1] == x);
                assert(chars_lt(b[0], b[i + 1]));
                lemma_chars_lt_irrefl(x);
                assert(a.contains(x));
                let k = choose|k: int| 0 <= k < a.len() && a[k] == x;
                assert(k != 0);
                assert(a1[k - 1] == x);
            }
        }
        lemma_sorted_eq_when_same_members(a1, b1);
        assert(a =~= seq![a[0]] + a1);
        assert(b =~= seq![b[0]] + b1);
    }
}

} // verus!

verus! {

/// The reverse of a sequence.
pub open spec fn reversed<A>(s: Seq<A>) -> Seq<A> {
    Seq::new(s.len(), |i: int| s[s.len() - 1 - i])
}

/// `out` is what sorting, by key, a sequence whose views are `inp` and keeping
/// the first element of each key gives.
pub open spec fn sorted_unique_views<T: SortKey + View>(out: Seq<T>, inp: Seq<T::V>) -> bool {
    exists|u: Seq<T>| u.map_values(|x: T| x@) == inp && #[trigger] sorted_unique(out, u)
}

} // verus!

verus! {

/// The strings that satisfy `p`, sorted, once each (when there are finitely many).
pub open spec fn sorted_members(p: spec_fn(Chars) -> bool) -> Seq<Chars> {
    choose|o: Seq<Chars>| strictly_sorted(o) && forall|x: Chars| #[trigger] o.contains(x) <==> p(x)
}

/// A strictly sorted sequence holding exactly the strings that satisfy `p` is
/// `sorted_members(p)`.
pub proof fn lemma_sorted_members(o: Seq<Chars>, p: spec_fn(Chars) -> bool)
    requires
        strictly_sorted(o),
        forall|x: Chars| #[trigger] o.contains(x) <==> p(x),
    ensures
        o == sorted_members(p),
{
    let c = sorted_members(p);
    assert(strictly_sorted(c) && forall|x: Chars| #[trigger] c.contains(x) <==> p(x));
    lemma_sorted_eq_when_same_members(o, c);
}

/// The sorted set of the strings of `s`.
pub open spec fn sorted_set(s: Seq<Chars>) -> Seq<Chars> {
    sorted_members(|x: Chars| s.contains(x))
}

/// What `sort_dedup` returns is `sorted_set` of its input.
pub proof fn lemma_sorted_set_of_is(o: Seq<Chars>, s: Seq<Chars>)
    requires
        sorted_set_of(o, s),
    ensures
        o == sorted_set(s),
{
    lemma_sorted_members(o, |x: Chars| s.contains(x));
}

} // verus!

verus! {

/// Records that can be copied with their view and key kept.
pub trait KeyedCopy: SortKey + View + Sized {
    fn duplicate(&self) -> (r: Self)
        ensures
            r@ == self@,
            r.key() == self.key(),
    ;
}

/// A bare sort key.
pub struct KeyOnly(pub Vec<Vec<char>>);

impl SortKey for KeyOnly {
    open spec fn key(&self) -> Seq<Chars> {
        key_view(self.0)
    }

    fn exec_key(&self) -> (k: Vec<Vec<char>>) {
        let mut k: Vec<Vec<char>> = Vec::new();
        let mut i: usize = 0;
        while i < self.0.len()
            invariant
                i <= self.0@.len(),
                key_view(k) == key_view(self.0).take(i as int),
            decreases self.0@.len() - i,
        {
            let ghost prev = key_view(k);
            k.push(self.0[i].clone());
            assert(key_view(k) =~= prev.push(self.0@[i as int]@));
            assert(key_view(self.0).take(i + 1) =~= key_view(self.0).take(i as int).push(self.0@[i as int]@));
            i += 1;
        }
        assert(key_view(self.0).take(self.0@.len() as int) =~= key_view(self.0));
        k
    }
}

/// The elements of `s` with key `k`, in order.
pub open spec fn key_group<T: SortKey>(s: Seq<T>, k: Seq<Chars>) -> Seq<T>
    decreases s.len(),
{
    if s.len() == 0 {
        Seq::empty()
    } else {
        key_group(s.drop_last(), k) + if s.last().key() == k { seq![s.last()] } else { Seq::empty() }
    }
}

/// The groups of the keys, one after the other.
pub open spec fn flatten_groups<T: SortKey>(keys: Seq<Seq<Chars>>, s: Seq<T>) -> Seq<T>
    decreases keys.len(),
{
    if keys.len() == 0 {
        Seq::empty()
    } else {
        flatten_groups(keys.drop_last(), s) + key_group(s, keys.last())
    }
}

/// The views of a sequence.
pub open spec fn view_seq<T: View>(s: Seq<T>) -> Seq<T::V> {
    s.map_values(|x: T| x@)
}

/// `out` is `s` sorted by key, equal keys in their order in `s` (a stable sort):
/// the elements of each key in turn, in increasing key order.
pub open spec fn stably_sorted<T: SortKey + View>(out: Seq<T>, s: Seq<T>) -> bool {
    exists|keys: Seq<Seq<Chars>>| #[trigger] sorted_key_set_of(keys, keys_of(s)) && view_seq(out) == view_seq(flatten_groups(keys, s))
}

/// Sorts by key, keeping the order of equal keys (`sort_by` on the key).
pub fn stable_sort_by_key<T: KeyedCopy>(v: &Vec<T>) -> (out: Vec<T>)
    ensures
        stably_sorted(out@, v@),
{
    let mut ks: Vec<KeyOnly> = Vec::new();
    let mut i: usize = 0;
    while i < v.len()
        invariant
            i <= v@.len(),
            keys_of(ks@) == keys_of(v@).take(i as int),
        decreases v@.len() - i,
    {
        let ghost prev = keys_of(ks@);
        ks.push(KeyOnly(v[i].exec_key()));
        assert(keys_of(ks@) =~= prev.push(v@[i as int].key()));
        assert(keys_of(v@).take(i + 1) =~= keys_of(v@).take(i as int).push(v@[i as int].key()));
        i += 1;
    }
    assert(keys_of(v@).take(v@.len() as int) =~= keys_of(v@));
    let ghost all_keys = ks@;
    let sorted_keys = sort_unique_by_key(ks);
    proof {
        lemma_sorted_unique_keys(sorted_keys@, all_keys);
    }
    let ghost kv = keys_of(sorted_keys@);
    let mut out: Vec<T> = Vec::new();
    let mut g: usize = 0;
    while g < sorted_keys.len()
        invariant
            g <= sorted_keys@.len(),
            kv == keys_of(sorted_keys@),
            view_seq(out@) == view_seq(flatten_groups(kv.take(g as int), v@)),
        decreases sorted_keys@.len() - g,
    {
        let k = sorted_keys[g].exec_key();
        let ghost base = view_seq(out@);
        let mut j: usize = 0;
        while j < v.len()
            invariant
                j <= v@.len(),
                key_view(k) == kv[g as int],
                view_seq(out@) == base + view_seq(key_group(v@.take(j as int), kv[g as int])),
            decreases v@.len() - j,
        {
            let ghost before = view_seq(out@);
            assert(v@.take(j + 1).drop_last() =~= v@.take(j as int));
            assert(v@.take(j + 1).last() == v@[j as int]);
            let kj = v[j].exec_key();
            if compare_keys(&kj, &k) == 0 {
                out.push(v[j].duplicate());
                assert(view_seq(out@) =~= before.push(v@[j as int]@));
                assert(view_seq(key_group(v@.take(j + 1), kv[g as int])) =~= view_seq(
                    key_group(v@.take(j as int), kv[g as int]),
                ).push(v@[j as int]@));
            } else {
                assert(key_group(v@.take(j + 1), kv[g as int]) =~= key_group(v@.take(j as int), kv[g as int]) + Seq::<T>::empty());
            }
            j += 1;
        }
        assert(v@.take(v@.len() as int) =~= v@);
        assert(kv.take(g + 1).drop_last() =~= kv.take(g as int));
        assert(kv.take(g + 1).last() == kv[g as int]);
        assert(view_seq(flatten_groups(kv.take(g + 1), v@)) =~= view_seq(flatten_groups(kv.take(g as int), v@)) + view_seq(
            key_group(v@, kv[g as int]),
        ));
        g += 1;
    }
    assert(kv.take(sorted_keys@.len() as int) =~= kv);
    assert(sorted_key_set_of(kv, keys_of(v@)));
    out
}

} // verus!

verus! {

/// The sorted set of a strictly sorted sequence is the sequence.
pub proof fn lemma_sorted_set_idempotent(s: Seq<Chars>)
    requires
        strictly_sorted(s),
    ensures
        sorted_set(s) == s,
{
    lemma_sorted_members(s, |x: Chars| s.contains(x));
}

} // verus!

verus! {

/// Every finite sequence of strings has a sorted set, and it holds exactly its strings.
pub proof fn lemma_sorted_set_exists(s: Seq<Chars>)
    ensures
        strictly_sorted(sorted_set(s)),
        forall|x: Chars| #[trigger] sorted_set(s).contains(x) <==> s.contains(x),
{
    let o = sorted_set_witness(s);
    lemma_sorted_set_witness(s);
    lemma_sorted_members(o, |x: Chars| s.contains(x));
}

/// A sorted set built in spec by inserting the elements one at a time.
pub open spec fn sorted_insert(o: Seq<Chars>, x: Chars) -> Seq<Chars>
    decreases o.len(),
{
    if o.len() == 0 {
        seq![x]
    } else if o[0] == x {
        o
    } else if chars_lt(x, o[0]) {
        seq![x] + o
    } else {
        seq![o[0]] + sorted_insert(o.drop_first(), x)
    }
}

proof fn lemma_sorted_insert(o: Seq<Chars>, x: Chars)
    requires
        strictly_sorted(o),
    ensures
        strictly_sorted(sorted_insert(o, x)),
        forall|y: Chars| #[trigger] sorted_insert(o, x).contains(y) <==> (o.contains(y) || y == x),
        sorted_insert(o, x).len() > 0,
        o.len() > 0 ==> (sorted_insert(o, x)[0] == o[0] || sorted_insert(o, x)[0] == x),
    decreases o.len(),
{
    let r = sorted_insert(o, x);
    if o.len() == 0 {
        assert(r == seq![x]);
        assert forall|y: Chars| #[trigger] r.contains(y) <==> (o.contains(y) || y == x) by {
            if r.contains(y) {
                assert(r[0] == x);
            }
            if y == x {
                assert(r[0] == y);
            }
        }
    } else if o[0] == x {
        assert forall|y: Chars| #[trigger] r.contains(y) <==> (o.contains(y) || y == x) by {
            if y == x {
                assert(o[0] == y);
            }
        }
    } else if chars_lt(x, o[0]) {
        assert forall|i: int, j: int| 0 <= i < j < r.len() implies chars_lt(#[trigger] r[i], #[trigger] r[j]) by {
            if i == 0 {
                if j > 1 {
                    assert(chars_lt(o[0], o[j - 1]));
                    lemma_chars_lt_trans(x, o[0], o[j - 1]);
                }
            } else {
                assert(chars_lt(o[i - 1], o[j - 1]));
            }
        }
        assert forall|y: Chars| #[trigger] r.contains(y) <==> (o.contains(y) || y == x) by {
            lemma_contains_concat_seq(seq![x], o, y);
        }
    } else {
        let rest = o.drop_first();
        assert(strictly_sorted(rest)) by {
            assert forall|i: int, j: int| 0 <= i < j < rest.len() implies chars_lt(#[trigger] rest[i], #[trigger] rest[j]) by {
                assert(chars_lt(o[i + 1], o[j + 1]));
            }
        }
        lemma_sorted_insert(rest, x);
        let ri = sorted_insert(rest, x);
        lemma_chars_lt_total(x, o[0]);
        assert forall|i: int, j: int| 0 <= i < j < r.len() implies chars_lt(#[trigger] r[i], #[trigger] r[j]) by {
            if i == 0 {
                assert(r[j] == ri[j - 1]);
                assert(ri.contains(ri[j - 1]));
                if rest.contains(ri[j - 1]) {
                    let k = choose|k: int| 0 <= k < rest.len() && rest[k] == ri[j - 1];
                    assert(chars_lt(o[0], o[k + 1]));
                }
            } else {
                assert(r[i] == ri[i - 1]);
                assert(r[j] == ri[j - 1]);
            }
        }
        assert forall|y: Chars| #[trigger] r.contains(y) <==> (o.contains(y) || y == x) by {
            lemma_contains_concat_seq(seq![o[0]], ri, y);
            assert(o =~= seq![o[0]] + rest);
            lemma_contains_concat_seq(seq![o[0]], rest, y);
        }
    }
}

proof fn lemma_contains_concat_seq(a: Seq<Chars>, b: Seq<Chars>, x: Chars)
    ensures
        (a + b).contains(x) <==> (a.contains(x) || b.contains(x)),
{
    crate::text::lemma_contains_concat(a, b, x);
}

/// A sorted set of the strings of `s`, built in spec.
pub open spec fn sorted_set_witness(s: Seq<Chars>) -> Seq<Chars>
    decreases s.len(),
{
    if s.len() == 0 {
        Seq::empty()
    } else {
        sorted_insert(sorted_set_witness(s.drop_last()), s.last())
    }
}

proof fn lemma_sorted_set_witness(s: Seq<Chars>)
    ensures
        strictly_sorted(sorted_set_witness(s)),
        forall|x: Chars| #[trigger] sorted_set_witness(s).contains(x) <==> s.contains(x),
    decreases s.len(),
{
    if s.len() > 0 {
        lemma_sorted_set_witness(s.drop_last());
        lemma_sorted_insert(sorted_set_witness(s.drop_last()), s.last());
        assert forall|x: Chars| #[trigger] sorted_set_witness(s).contains(x) <==> s.contains(x) by {
            assert(s =~= s.drop_last().push(s.last()));
            crate::text::lemma_contains_concat(s.drop_last(), seq![s.last()], x);
            assert(s.drop_last().push(s.last()) =~= s.drop_last() + seq![s.last()]);
        }
    }
}

} // verus!

verus! {

proof fn lemma_key_group_views<T: SortKey + View>(s: Seq<T>, t: Seq<T>, k: Seq<Chars>)
    requires
        view_seq(s) == view_seq(t),
        keys_of(s) == keys_of(t),
    ensures
        view_seq(key_group(s, k)) == view_seq(key_group(t, k)),
    decreases s.len(),
{
    assert(s.len() == view_seq(s).len());
    assert(t.len() == view_seq(t).len());
    if s.len() > 0 {
        assert(view_seq(s.drop_last()) =~= view_seq(s).drop_last());
        assert(view_seq(t.drop_last()) =~= view_seq(t).drop_last());
        assert(keys_of(s.drop_last()) =~= keys_of(s).drop_last());
        assert(keys_of(t.drop_last()) =~= keys_of(t).drop_last());
        lemma_key_group_views(s.drop_last(), t.drop_last(), k);
        assert(view_seq(s)[s.len() - 1] == view_seq(t)[t.len() - 1]);
        assert(keys_of(s)[s.len() - 1] == keys_of(t)[t.len() - 1]);
        let gs = key_group(s.drop_last(), k);
        let gt = key_group(t.drop_last(), k);
        if s.last().key() == k {
            assert(view_seq(gs + seq![s.last()]) =~= view_seq(gs).push(s.last()@));
            assert(view_seq(gt + seq![t.last()]) =~= view_seq(gt).push(t.last()@));
        } else {
            assert(gs + Seq::<T>::empty() =~= gs);
            assert(gt + Seq::<T>::empty() =~= gt);
        }
    }
}

proof fn lemma_flatten_views<T: SortKey + View>(keys: Seq<Seq<Chars>>, s: Seq<T>, t: Seq<T>)
    requires
        view_seq(s) == view_seq(t),
        keys_of(s) == keys_of(t),
    ensures
        view_seq(flatten_groups(keys, s)) == view_seq(flatten_groups(keys, t)),
    decreases keys.len(),
{
    if keys.len() > 0 {
        lemma_flatten_views(keys.drop_last(), s, t);
        lemma_key_group_views(s, t, keys.last());
        let a = flatten_groups(keys.drop_last(), s);
        let b = key_group(s, keys.last());
        let c = flatten_groups(keys.drop_last(), t);
        let d = key_group(t, keys.last());
        assert(view_seq(a + b) =~= view_seq(a) + view_seq(b));
        assert(view_seq(c + d) =~= view_seq(c) + view_seq(d));
    }
}

/// A stable sort of one sequence is a stable sort of any sequence with the
/// same views and keys.
pub proof fn lemma_stably_sorted_views<T: SortKey + View>(out: Seq<T>, s: Seq<T>, t: Seq<T>)
    requires
        stably_sorted(out, s),
        view_seq(s) == view_seq(t),
        keys_of(s) == keys_of(t),
    ensures
        stably_sorted(out, t),
{
    let keys = choose|keys: Seq<Seq<Chars>>| #[trigger] sorted_key_set_of(keys, keys_of(s)) && view_seq(out) == view_seq(flatten_groups(keys, s));
    lemma_flatten_views(keys, s, t);
    assert(sorted_key_set_of(keys, keys_of(t)));
}

} // verus!

verus! {

/// Sorting by key and keeping the first element of each key keeps the first
/// element of the input.
pub proof fn lemma_sorted_unique_keeps_first<T: SortKey>(out: Seq<T>, inp: Seq<T>)
    requires
        sorted_unique(out, inp),
        inp.len() > 0,
    ensures
        exists|i: int| 0 <= i < out.len() && out[i] == inp[0],
{
    reveal(covers_keys);
    reveal(drawn_from_firsts);
    assert(inp[0] == inp[0]);
    let i = choose|i: int| 0 <= i < out.len() && #[trigger] out[i].key() == inp[0].key();
    assert(out[i] == out[i]);
    let j = choose|j: int| first_of_key(inp, 0, j) && out[i] == inp[j];
    if j > 0 {
        assert(inp[0].key() != inp[j].key());
    }
    assert(out[i] == inp[0]);
}

} // verus!

verus! {

/// In a strictly sorted `o` that holds every string of the strictly sorted
/// `a`, and whose other strings all come after those of `a`, the strings of
/// `a` come first.
proof fn lemma_sorted_prefix_at(o: Seq<Chars>, a: Seq<Chars>, i: int)
    requires
        strictly_sorted(o),
        strictly_sorted(a),
        forall|x: Chars| #[trigger] a.contains(x) ==> o.contains(x),
        forall|x: Chars, y: Chars| #[trigger] o.contains(x) && !a.contains(x) && #[trigger] a.contains(y) ==> chars_lt(y, x),
        0 <= i < a.len(),
    ensures
        i < o.len(),
        o[i] == a[i],
    decreases i,
{
    assert forall|j: int| 0 <= j < i implies j < o.len() && #[trigger] o[j] == a[j] by {
        lemma_sorted_prefix_at(o, a, j);
    }
    assert(a.contains(a[i]));
    let m = choose|m: int| 0 <= m < o.len() && o[m] == a[i];
    if m < i {
        assert(chars_lt(a[m], a[i]));
        lemma_chars_lt_irrefl(a[i]);
    }
    if i < m {
        assert(chars_lt(o[i], o[m]));
        if a.contains(o[i]) {
            let p = choose|p: int| 0 <= p < a.len() && a[p] == o[i];
            if p < i {
                assert(o[p] == a[p]);
                assert(chars_lt(o[p], o[i]));
                lemma_chars_lt_irrefl(o[i]);
            } else if p == i {
                lemma_chars_lt_irrefl(o[i]);
            } else {
                assert(chars_lt(a[i], a[p]));
                lemma_chars_lt_asym(a[i], o[i]);
            }
        } else {
            assert(o.contains(o[i]));
            assert(chars_lt(a[i], o[i]));
            lemma_chars_lt_asym(a[i], o[i]);
        }
    }
}

/// See `lemma_sorted_prefix_at`: `a` is the start of `o`.
pub proof fn lemma_sorted_prefix(o: Seq<Chars>, a: Seq<Chars>)
    requires
        strictly_sorted(o),
        strictly_sorted(a),
        forall|x: Chars| #[trigger] a.contains(x) ==> o.contains(x),
        forall|x: Chars, y: Chars| #[trigger] o.contains(x) && !a.contains(x) && #[trigger] a.contains(y) ==> chars_lt(y, x),
    ensures
        a.len() <= o.len(),
        o.take(a.len() as int) == a,
{
    if a.len() > 0 {
        lemma_sorted_prefix_at(o, a, a.len() - 1);
    }
    assert forall|i: int| 0 <= i < a.len() implies #[trigger] o.take(a.len() as int)[i] == a[i] by {
        lemma_sorted_prefix_at(o, a, i);
    }
    assert(o.take(a.len() as int) =~= a);
}

} // verus!

verus! {

/// Two strictly increasing key sequences with the same keys are equal.
proof fn lemma_sorted_keys_eq(a: Seq<Seq<Chars>>, b: Seq<Seq<Chars>>)
    requires
        forall|i: int, j: int| 0 <= i < j < a.len() ==> key_lt(#[trigger] a[i], #[trigger] a[j]),
        forall|i: int, j: int| 0 <= i < j < b.len() ==> key_lt(#[trigger] b[i], #[trigger] b[j]),
        forall|x: Seq<Chars>| a.contains(x) <==> b.contains(x),
    ensures
        a == b,
    decreases a.len(),
{
    if a.len() == 0 {
        if b.len() > 0 {
            assert(b.contains(b[0]));
        }
        assert(a =~= b);
    } else {
        assert(a.contains(a[0]));
        assert(b.len() > 0);
        assert(b.contains(b[0]));
        let ia = choose|i: int| 0 <= i < a.len() && a[i] == b[0];
        let ib = choose|i: int| 0 <= i < b.len() && b[i] == a[0];
        if ia > 0 {
            assert(key_lt(a[0], a[ia]));
            if ib > 0 {
                assert(key_lt(b[0], b[ib]));
                lemma_key_lt_asym(a[0], b[0]);
            } else {
                lemma_key_lt_irrefl(a[0]);
            }
        }
        assert(a[0] == b[0]);
        let a1 = a.drop_first();
        let b1 = b.drop_first();
        assert forall|x: Seq<Chars>| a1.contains(x) <==> b1.contains(x) by {
            if a1.contains(x) {
                let i = choose|i: int| 0 <= i < a1.len() && a1[i] == x;
                assert(a[i + 1] == x);
                assert(key_lt(a[0], a[i + 1]));
                lemma_key_lt_irrefl(x);
                assert(b.contains(x));
                let k = choose|k: int| 0 <= k < b.len() && b[k] == x;
                assert(k != 0);
                assert(b1[k - 1] == x);
            }
            if b1.contains(x) {
                let i = choose|i: int| 0 <= i < b1.len() && b1[i] == x;
                assert(b[i + 1] == x);
                assert(key_lt(b[0], b[i + 1]));
                lemma_key_lt_irrefl(x);
                assert(a.contains(x));
                let k = choose|k: int| 0 <= k < a.len() && a[k] == x;
                assert(k != 0);
                assert(a1[k - 1] == x);
            }
        }
        assert forall|i: int, j: int| 0 <= i < j < a1.len() implies key_lt(#[trigger] a1[i], #[trigger] a1[j]) by {
            assert(a1[i] == a[i + 1] && a1[j] == a[j + 1]);
        }
        assert forall|i: int, j: int| 0 <= i < j < b1.len() implies key_lt(#[trigger] b1[i], #[trigger] b1[j]) by {
            assert(b1[i] == b[i + 1] && b1[j] == b[j + 1]);
        }
        lemma_sorted_keys_eq(a1, b1);
        assert(a =~= seq![a[0]] + a1);
        assert(b =~= seq![b[0]] + b1);
    }
}

/// Sorting by key and keeping the first element of each key has one
/// outcome: for element types whose key follows from their view, two
/// outcomes from inputs with the same views have the same views.
pub proof fn lemma_sorted_unique_views_determined<T: SortKey + View>(o1: Seq<T>, o2: Seq<T>, inp: Seq<T::V>)
    requires
        sorted_unique_views(o1, inp),
        sorted_unique_views(o2, inp),
        forall|x: T, y: T| x@ == y@ ==> #[trigger] x.key() == #[trigger] y.key(),
    ensures
        view_seq(o1) == view_seq(o2),
{
    let u1 = choose|u: Seq<T>| u.map_values(|x: T| x@) == inp && #[trigger] sorted_unique(o1, u);
    let u2 = choose|u: Seq<T>| u.map_values(|x: T| x@) == inp && #[trigger] sorted_unique(o2, u);
    assert(u1.map_values(|x: T| x@).len() == u1.len());
    assert(u2.map_values(|x: T| x@).len() == u2.len());
    assert(u1.len() == u2.len());
    assert forall|j: int| 0 <= j < u1.len() implies #[trigger] u1[j]@ == u2[j]@ && u1[j].key() == u2[j].key() by {
        assert(u1.map_values(|x: T| x@)[j] == u2.map_values(|x: T| x@)[j]);
    }
    lemma_sorted_unique_keys(o1, u1);
    lemma_sorted_unique_keys(o2, u2);
    let k1 = keys_of(o1);
    let k2 = keys_of(o2);
    assert(keys_of(u1) =~= keys_of(u2)) by {
        assert forall|j: int| 0 <= j < u1.len() implies keys_of(u1)[j] == keys_of(u2)[j] by {
            assert(u1[j].key() == u2[j].key());
        }
    }
    lemma_sorted_keys_eq(k1, k2);
    reveal(drawn_from_firsts);
    assert forall|i: int| 0 <= i < o1.len() implies #[trigger] view_seq(o1)[i] == view_seq(o2)[i] by {
        assert(o1[i] == o1[i]);
        assert(o2[i] == o2[i]);
        let j1 = choose|j: int| #![trigger u1[j]] first_of_key(u1, 0, j) && o1[i] == u1[j];
        let j2 = choose|j: int| #![trigger u2[j]] first_of_key(u2, 0, j) && o2[i] == u2[j];
        assert(k1[i] == k2[i]);
        assert(u1[j1].key() == u2[j2].key());
        if j1 < j2 {
            assert(u2[j1].key() != u2[j2].key());
            assert(u1[j1].key() == u2[j1].key());
        }
        if j2 < j1 {
            assert(u1[j2].key() != u1[j1].key());
            assert(u1[j2].key() == u2[j2].key());
        }
        assert(u1[j1]@ == u2[j1]@);
    }
    assert(view_seq(o1) =~= view_seq(o2));
}

} // verus!

verus! {

/// The elements of a key group have that key and come from the sequence.
proof fn lemma_key_group_props<T: SortKey>(s: Seq<T>, k: Seq<Chars>)
    ensures
        forall|i: int|
            0 <= i < key_group(s, k).len() ==> (#[trigger] key_group(s, k)[i]).key() == k && exists|j: int|
                0 <= j < s.len() && key_group(s, k)[i] == s[j],
    decreases s.len(),
{
    if s.len() > 0 {
        lemma_key_group_props(s.drop_last(), k);
        let g0 = key_group(s.drop_last(), k);
        let g = key_group(s, k);
        assert forall|i: int| 0 <= i < g.len() implies (#[trigger] g[i]).key() == k && exists|j: int| 0 <= j < s.len() && g[i] == s[j] by {
            if i < g0.len() {
                assert(g[i] == g0[i]);
                let j = choose|j: int| 0 <= j < s.drop_last().len() && g0[i] == s.drop_last()[j];
                assert(s[j] == s.drop_last()[j]);
            } else {
                assert(g[i] == s.last());
                assert(s[s.len() - 1] == s.last());
            }
        }
    }
}

/// Groups laid out in increasing key order: each element comes from the
/// sequence and has one of the keys, and keys never decrease along them.
proof fn lemma_flatten_props<T: SortKey>(keys: Seq<Seq<Chars>>, s: Seq<T>)
    requires
        forall|i: int, j: int| 0 <= i < j < keys.len() ==> key_lt(#[trigger] keys[i], #[trigger] keys[j]),
    ensures
        forall|i: int|
            0 <= i < flatten_groups(keys, s).len() ==> exists|j: int| 0 <= j < s.len() && #[trigger] flatten_groups(keys, s)[i] == s[j],
        forall|i: int| 0 <= i < flatten_groups(keys, s).len() ==> keys.contains(#[trigger] flatten_groups(keys, s)[i].key()),
        forall|i: int, j: int|
            0 <= i < j < flatten_groups(keys, s).len() ==> !key_lt(
                #[trigger] flatten_groups(keys, s)[j].key(),
                #[trigger] flatten_groups(keys, s)[i].key(),
            ),
    decreases keys.len(),
{
    if keys.len() > 0 {
        let k0 = keys.drop_last();
        let kl = keys.last();
        assert forall|i: int, j: int| 0 <= i < j < k0.len() implies key_lt(#[trigger] k0[i], #[trigger] k0[j]) by {
            assert(k0[i] == keys[i] && k0[j] == keys[j]);
        }
        lemma_flatten_props(k0, s);
        lemma_key_group_props(s, kl);
        let a = flatten_groups(k0, s);
        let g = key_group(s, kl);
        let f = flatten_groups(keys, s);
        assert(f == a + g);
        assert forall|i: int| 0 <= i < f.len() implies exists|j: int| 0 <= j < s.len() && #[trigger] f[i] == s[j] by {
            if i < a.len() {
                assert(f[i] == a[i]);
            } else {
                assert(f[i] == g[i - a.len()]);
            }
        }
        assert forall|i: int| 0 <= i < f.len() implies keys.contains(#[trigger] f[i].key()) by {
            if i < a.len() {
                assert(f[i] == a[i]);
                assert(k0.contains(a[i].key()));
                let m = choose|m: int| 0 <= m < k0.len() && k0[m] == a[i].key();
                assert(keys[m] == k0[m]);
            } else {
                assert(f[i] == g[i - a.len()]);
                assert(keys[keys.len() - 1] == kl);
            }
        }
        assert forall|i: int, j: int| 0 <= i < j < f.len() implies !key_lt(#[trigger] f[j].key(), #[trigger] f[i].key()) by {
            if j < a.len() {
                assert(f[i] == a[i] && f[j] == a[j]);
            } else if i >= a.len() {
                assert(f[i] == g[i - a.len()] && f[j] == g[j - a.len()]);
                lemma_key_lt_irrefl(kl);
            } else {
                assert(f[i] == a[i] && f[j] == g[j - a.len()]);
                assert(k0.contains(a[i].key()));
                let m = choose|m: int| 0 <= m < k0.len() && k0[m] == a[i].key();
                assert(keys[m] == k0[m]);
                assert(key_lt(keys[m], keys[keys.len() - 1]));
                lemma_key_lt_asym(a[i].key(), kl);
            }
        }
    }
}

/// A stable sort by a key that follows from the views: each element's view
/// is that of an input element, and keys never decrease along the output.
pub proof fn lemma_stably_sorted_props<T: SortKey + View>(out: Seq<T>, s: Seq<T>)
    requires
        stably_sorted(out, s),
        forall|x: T, y: T| x@ == y@ ==> #[trigger] x.key() == #[trigger] y.key(),
    ensures
        forall|i: int| 0 <= i < out.len() ==> exists|j: int| 0 <= j < s.len() && (#[trigger] out[i])@ == s[j]@,
        forall|i: int, j: int| 0 <= i < j < out.len() ==> !key_lt(#[trigger] out[j].key(), #[trigger] out[i].key()),
{
    let keys = choose|keys: Seq<Seq<Chars>>| #[trigger] sorted_key_set_of(keys, keys_of(s)) && view_seq(out) == view_seq(flatten_groups(keys, s));
    lemma_flatten_props(keys, s);
    let f = flatten_groups(keys, s);
    assert(out.len() == f.len()) by {
        assert(view_seq(out).len() == out.len());
        assert(view_seq(f).len() == f.len());
    }
    assert forall|i: int| 0 <= i < out.len() implies (#[trigger] out[i])@ == f[i]@ && out[i].key() == f[i].key() by {
        assert(view_seq(out)[i] == view_seq(f)[i]);
    }
    assert forall|i: int| 0 <= i < out.len() implies exists|j: int| 0 <= j < s.len() && (#[trigger] out[i])@ == s[j]@ by {
        assert(out[i]@ == f[i]@);
        let j = choose|j: int| 0 <= j < s.len() && f[i] == s[j];
    }
    assert forall|i: int, j: int| 0 <= i < j < out.len() implies !key_lt(#[trigger] out[j].key(), #[trigger] out[i].key()) by {
        assert(out[i].key() == f[i].key());
        assert(out[j].key() == f[j].key());
    }
}

} // verus!

verus! {

/// A stable sort by a key that follows from the views has one outcome:
/// inputs with the same views give outputs with the same views.
pub proof fn lemma_stably_sorted_determined<T: SortKey + View>(s1: Seq<T>, u1: Seq<T>, s2: Seq<T>, u2: Seq<T>)
    requires
        stably_sorted(s1, u1),
        stably_sorted(s2, u2),
        view_seq(u1) == view_seq(u2),
        forall|x: T, y: T| x@ == y@ ==> #[trigger] x.key() == #[trigger] y.key(),
    ensures
        view_seq(s1) == view_seq(s2),
{
    let k1 = choose|keys: Seq<Seq<Chars>>| #[trigger] sorted_key_set_of(keys, keys_of(u1)) && view_seq(s1) == view_seq(flatten_groups(keys, u1));
    let k2 = choose|keys: Seq<Seq<Chars>>| #[trigger] sorted_key_set_of(keys, keys_of(u2)) && view_seq(s2) == view_seq(flatten_groups(keys, u2));
    assert(u1.len() == u2.len()) by {
        assert(view_seq(u1).len() == u1.len());
        assert(view_seq(u2).len() == u2.len());
    }
    assert(keys_of(u1) =~= keys_of(u2)) by {
        assert forall|j: int| 0 <= j < u1.len() implies keys_of(u1)[j] == keys_of(u2)[j] by {
            assert(view_seq(u1)[j] == view_seq(u2)[j]);
            assert(view_seq(u1)[j] == u1[j]@);
            assert(view_seq(u2)[j] == u2[j]@);
            assert(u1[j].key() == u2[j].key());
        }
    }
    lemma_sorted_keys_eq(k1, k2);
    lemma_flatten_views(k1, u1, u2);
}

} // verus!
