//! Typed errors: a code, a message, and a sorted set of key/value details.
use vstd::prelude::*;

use crate::order::{
    key_lt, key_view, keys_of, lemma_key_lt_irrefl, lemma_sorted_unique_keys, sort_unique_by_key,
    sorted_key_set_of, SortKey,
};
use crate::text::{chars_of, concat3, copy_str, Chars};

verus! {

#[derive(Clone, Copy, Debug, PartialEq, Eq, Structural)]
pub enum ErrorCode {
    InvalidArgument,
    NotFound,
    BackendMissing,
    BackendFailed,
    Internal,
}

/// The wire name of an error code.
pub open spec fn code_text(code: ErrorCode) -> Chars {
    match code {
        ErrorCode::InvalidArgument => "INVALID_ARGUMENT"@,
        ErrorCode::NotFound => "NOT_FOUND"@,
        ErrorCode::BackendMissing => "BACKEND_MISSING"@,
        ErrorCode::BackendFailed => "BACKEND_FAILED"@,
        ErrorCode::Internal => "INTERNAL"@,
    }
}

impl ErrorCode {
    pub fn as_str(self) -> (s: &'static str)
        ensures
            s@ == code_text(self),
    {
        match self {
            ErrorCode::InvalidArgument => "INVALID_ARGUMENT",
            ErrorCode::NotFound => "NOT_FOUND",
            ErrorCode::BackendMissing => "BACKEND_MISSING",
            ErrorCode::BackendFailed => "BACKEND_FAILED",
            ErrorCode::Internal => "INTERNAL",
        }
    }
}

#[derive(Debug)]
pub struct ErrorDetail {
    pub key: String,
    pub value: String,
}

impl SortKey for ErrorDetail {
    open spec fn key(&self) -> Seq<Chars> {
        seq![self.key@, self.value@]
    }

    fn exec_key(&self) -> (k: Vec<Vec<char>>) {
        let mut k: Vec<Vec<char>> = Vec::new();
        k.push(chars_of(self.key.as_str()));
        k.push(chars_of(self.value.as_str()));
        assert(key_view(k) =~= seq![self.key@, self.value@]);
        k
    }
}

impl ErrorDetail {
    pub fn duplicate(&self) -> (r: ErrorDetail)
        ensures
            r.key@ == self.key@,
            r.value@ == self.value@,
    {
        ErrorDetail { key: self.key.clone(), value: self.value.clone() }
    }
}

#[derive(Debug)]
pub struct KbError {
    pub code: ErrorCode,
    pub message: String,
    pub details: Vec<ErrorDetail>,
}

/// What an error says: its code, its message and its details, each detail
/// as the pair `[key, value]`.
pub struct KbErrorView {
    pub code: ErrorCode,
    pub message: Chars,
    pub details: Seq<Seq<Chars>>,
}

impl View for KbError {
    type V = KbErrorView;

    open spec fn view(&self) -> KbErrorView {
        KbErrorView { code: self.code, message: self.message@, details: keys_of(self.details@) }
    }
}

/// An error with a code and a message and no details.
pub open spec fn plain_error(code: ErrorCode, message: Chars) -> KbErrorView {
    KbErrorView { code, message, details: Seq::empty() }
}

/// An error with one detail.
pub open spec fn error_with(code: ErrorCode, message: Chars, key: Chars, value: Chars) -> KbErrorView {
    KbErrorView { code, message, details: seq![seq![key, value]] }
}

/// An invalid-argument error with one detail: the most common error of the tool.
pub open spec fn invalid_with(message: Chars, key: Chars, value: Chars) -> KbErrorView {
    error_with(ErrorCode::InvalidArgument, message, key, value)
}

/// An invalid-argument error without details.
pub open spec fn invalid(message: Chars) -> KbErrorView {
    plain_error(ErrorCode::InvalidArgument, message)
}

/// `details` is the sorted set of `old` and one more detail.
pub open spec fn details_after(details: Seq<Seq<Chars>>, old: Seq<Seq<Chars>>, key: Chars, value: Chars) -> bool {
    sorted_key_set_of(details, old.push(seq![key, value]))
}

/// A sorted set built from one element is that element alone.
pub proof fn lemma_single_sorted(d: Seq<Seq<Chars>>, x: Seq<Chars>)
    requires
        sorted_key_set_of(d, Seq::<Seq<Chars>>::empty().push(x)),
    ensures
        d == seq![x],
{
    let one = Seq::<Seq<Chars>>::empty().push(x);
    assert(one[0] == x);
    assert(one.contains(x));
    assert(d.contains(x));
    assert forall|i: int| 0 <= i < d.len() implies d[i] == x by {
        assert(d.contains(d[i]));
        assert(one.contains(d[i]));
    }
    if d.len() > 1 {
        assert(key_lt(d[0], d[1]));
        lemma_key_lt_irrefl(x);
    }
    assert(d =~= seq![x]);
}

impl KbError {
    fn with_code(code: ErrorCode, message: &str) -> (e: KbError)
        ensures
            e@ == plain_error(code, message@),
    {
        let e = KbError { code, message: copy_str(message), details: Vec::new() };
        assert(e@.details =~= Seq::<Seq<Chars>>::empty());
        e
    }

    pub fn invalid_argument(message: &str) -> (e: KbError)
        ensures
            e@ == plain_error(ErrorCode::InvalidArgument, message@),
    {
        Self::with_code(ErrorCode::InvalidArgument, message)
    }

    pub fn not_found(message: &str) -> (e: KbError)
        ensures
            e@ == plain_error(ErrorCode::NotFound, message@),
    {
        Self::with_code(ErrorCode::NotFound, message)
    }

    pub fn backend_missing(message: &str) -> (e: KbError)
        ensures
            e@ == plain_error(ErrorCode::BackendMissing, message@),
    {
        Self::with_code(ErrorCode::BackendMissing, message)
    }

    pub fn backend_failed(message: &str) -> (e: KbError)
        ensures
            e@ == plain_error(ErrorCode::BackendFailed, message@),
    {
        Self::with_code(ErrorCode::BackendFailed, message)
    }

    /// An internal error: `context` is the message and the cause is kept as the detail `cause`.
    pub fn internal(cause: &str, context: &str) -> (e: KbError)
        ensures
            e@ == error_with(ErrorCode::Internal, context@, "cause"@, cause@),
    {
        let mut details: Vec<ErrorDetail> = Vec::new();
        details.push(ErrorDetail { key: copy_str("cause"), value: copy_str(cause) });
        let e = KbError { code: ErrorCode::Internal, message: copy_str(context), details };
        assert(e@.details =~= seq![seq!["cause"@, cause@]]);
        e
    }

    /// Adds a detail; the details stay sorted (by key, then value) and unique.
    pub fn with_detail(self, key: &str, value: &str) -> (e: KbError)
        ensures
            e@.code == self@.code,
            e@.message == self@.message,
            details_after(e@.details, self@.details, key@, value@),
    {
        let mut details = self.details;
        let ghost before = details@;
        details.push(ErrorDetail { key: copy_str(key), value: copy_str(value) });
        let ghost pushed = details@;
        let sorted = sort_unique_by_key(details);
        proof {
            lemma_sorted_unique_keys(sorted@, pushed);
            assert(keys_of(pushed) =~= keys_of(before).push(seq![key@, value@]));
        }
        KbError { code: self.code, message: self.message, details: sorted }
    }

    /// An error of the given code with a single detail.
    pub fn coded_with(code: ErrorCode, message: &str, key: &str, value: &str) -> (e: KbError)
        ensures
            e@ == error_with(code, message@, key@, value@),
    {
        let e = Self::with_code(code, message).with_detail(key, value);
        proof {
            assert(Seq::<Seq<Chars>>::empty().push(seq![key@, value@]) =~= Seq::<Seq<Chars>>::empty().push(seq![key@, value@]));
            lemma_single_sorted(e@.details, seq![key@, value@]);
        }
        e
    }

    /// An invalid-argument error with a single detail.
    pub fn invalid_with_detail(message: &str, key: &str, value: &str) -> (e: KbError)
        ensures
            e@ == invalid_with(message@, key@, value@),
    {
        Self::coded_with(ErrorCode::InvalidArgument, message, key, value)
    }

    /// An invalid-argument error with two details, the first key ordered
    /// before the second.
    pub fn invalid_with_two(message: &str, k1: &str, v1: &str, k2: &str, v2: &str) -> (e: KbError)
        requires
            key_lt(seq![k1@, v1@], seq![k2@, v2@]),
        ensures
            e@ == invalid_with2(message@, k1@, v1@, k2@, v2@),
    {
        let e1 = Self::invalid_with_detail(message, k1, v1);
        let e = e1.with_detail(k2, v2);
        proof {
            let x = seq![k1@, v1@];
            let y = seq![k2@, v2@];
            assert(e1@.details == seq![x]);
            assert(seq![x].push(y) =~= seq![x, y]);
            lemma_two_sorted(e@.details, x, y);
        }
        e
    }

    /// The same error with another message.
    pub fn with_message(self, message: &str) -> (e: KbError)
        ensures
            e@ == (KbErrorView { message: message@, ..self@ }),
    {
        KbError { code: self.code, message: copy_str(message), details: self.details }
    }

    /// The JSON error envelope: it borrows the code's name, the message and the details.
    pub fn to_json_error(&self) -> (j: JsonError<'_>)
        ensures
            j.error.code@ == code_text(self.code),
            j.error.message@ == self.message@,
            j.error.details@ == self.details@,
    {
        JsonError {
            error: JsonErrorBody {
                code: self.code.as_str(),
                message: self.message.as_str(),
                details: self.details.as_slice(),
            },
        }
    }

    /// The one-line form `CODE: message` (what `Display` prints).
    pub fn to_text(&self) -> (s: String)
        ensures
            s@ == code_text(self.code) + ": "@ + self.message@,
    {
        concat3(self.code.as_str(), ": ", self.message.as_str())
    }
}

pub struct JsonError<'a> {
    pub error: JsonErrorBody<'a>,
}

pub struct JsonErrorBody<'a> {
    pub code: &'a str,
    pub message: &'a str,
    pub details: &'a [ErrorDetail],
}

} // verus!

verus! {

impl KbError {
    /// A copy of this error.
    pub fn duplicate(&self) -> (r: KbError)
        ensures
            r@ == self@,
    {
        let mut details: Vec<ErrorDetail> = Vec::new();
        let mut i: usize = 0;
        while i < self.details.len()
            invariant
                i <= self.details@.len(),
                keys_of(details@) == keys_of(self.details@).take(i as int),
            decreases self.details@.len() - i,
        {
            let ghost prev = keys_of(details@);
            details.push(self.details[i].duplicate());
            assert(keys_of(details@) =~= prev.push(self.details@[i as int].key()));
            assert(keys_of(self.details@).take(i + 1) =~= keys_of(self.details@).take(i as int).push(self.details@[i as int].key()));
            i += 1;
        }
        assert(keys_of(self.details@).take(self.details@.len() as int) =~= keys_of(self.details@));
        KbError { code: self.code, message: self.message.clone(), details }
    }
}

/// Adding details one by one gives the sorted set of all of them.
pub proof fn lemma_details_grow(d2: Seq<Seq<Chars>>, d1: Seq<Seq<Chars>>, ps: Seq<Seq<Chars>>, key: Chars, value: Chars)
    requires
        sorted_key_set_of(d1, ps),
        details_after(d2, d1, key, value),
    ensures
        sorted_key_set_of(d2, ps.push(seq![key, value])),
{
    let p = seq![key, value];
    assert forall|x: Seq<Chars>| d2.contains(x) <==> ps.push(p).contains(x) by {
        crate::text::lemma_contains_concat(d1, seq![p], x);
        crate::text::lemma_contains_concat(ps, seq![p], x);
        assert(d1.push(p) =~= d1 + seq![p]);
        assert(ps.push(p) =~= ps + seq![p]);
    }
}

/// An invalid-argument error with two details, listed in order.
pub open spec fn invalid_with2(message: Chars, k1: Chars, v1: Chars, k2: Chars, v2: Chars) -> KbErrorView {
    KbErrorView { code: ErrorCode::InvalidArgument, message, details: seq![seq![k1, v1], seq![k2, v2]] }
}

/// A sorted set built from two ordered details is those two in order.
pub proof fn lemma_two_sorted(d: Seq<Seq<Chars>>, x: Seq<Chars>, y: Seq<Chars>)
    requires
        sorted_key_set_of(d, seq![x, y]),
        key_lt(x, y),
    ensures
        d == seq![x, y],
{
    let two = seq![x, y];
    assert(two[0] == x && two[1] == y);
    assert(two.contains(x) && two.contains(y));
    assert(d.contains(x) && d.contains(y));
    assert forall|i: int| 0 <= i < d.len() implies d[i] == x || d[i] == y by {
        assert(d.contains(d[i]));
        assert(two.contains(d[i]));
    }
    lemma_key_lt_irrefl(x);
    lemma_key_lt_irrefl(y);
    crate::order::lemma_key_lt_asym(x, y);
    if d.len() > 2 {
        assert(key_lt(d[0], d[1]) && key_lt(d[1], d[2]) && key_lt(d[0], d[2]));
    }
    let ix = choose|i: int| 0 <= i < d.len() && d[i] == x;
    let iy = choose|i: int| 0 <= i < d.len() && d[i] == y;
    assert(d.len() == 2);
    if ix == 1 {
        assert(iy == 0);
        assert(key_lt(d[0], d[1]));
    }
    assert(d =~= seq![x, y]);
}

/// Two details whose keys start with different characters are ordered by
/// those characters.
pub proof fn lemma_keys_ordered(k1: Chars, v1: Chars, k2: Chars, v2: Chars)
    requires
        k1.len() > 0,
        k2.len() > 0,
        (k1[0] as u32) < (k2[0] as u32),
    ensures
        key_lt(seq![k1, v1], seq![k2, v2]),
{
    reveal(crate::order::chars_lt);
    reveal(key_lt);
    assert(k1 != k2);
    assert(crate::order::chars_lt(k1, k2));
    assert(seq![k1, v1][0] == k1);
    assert(seq![k2, v2][0] == k2);
}

/// The error's details as a set of one or no details.
pub proof fn lemma_no_details_sorted()
    ensures
        sorted_key_set_of(Seq::<Seq<Chars>>::empty(), Seq::<Seq<Chars>>::empty()),
{
}

} // verus!
