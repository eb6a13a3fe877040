//! Reading generated and overlay files: JSON-lines framing and parse outcomes.
use vstd::prelude::*;

use crate::error::{invalid_with, ErrorCode, KbError, KbErrorView};
use crate::facts::{parse_view, parse_views};
use crate::order::{sorted_key_set_of, views};
use crate::text::{decode_utf8_bytes, lines, lines_of, string_of, trim, trim_chars, utf8_error_text, Chars};

verus! {

/// The non-blank lines of a text, in order.
pub open spec fn non_blank(ls: Seq<Chars>) -> Seq<Chars>
    decreases ls.len(),
{
    if ls.len() == 0 {
        Seq::empty()
    } else {
        non_blank(ls.drop_last()) + if trim(ls.last()).len() == 0 { Seq::empty() } else { seq![ls.last()] }
    }
}

/// The records' lines of a JSON-lines file: none for an empty file, an error
/// for bytes that are not UTF-8, else its non-blank lines.
pub open spec fn jsonl_record_lines(bytes: Seq<u8>) -> Option<Seq<Chars>> {
    if bytes.len() == 0 {
        Some(Seq::empty())
    } else if !vstd::utf8::valid_utf8(bytes) {
        None
    } else {
        Some(non_blank(lines(vstd::utf8::decode_utf8(bytes))))
    }
}

/// The non-blank lines of a JSON-lines file.
pub fn jsonl_lines(bytes: &[u8], rel_path: &str) -> (r: Result<Vec<String>, KbError>)
    ensures
        match r {
            Ok(v) => jsonl_record_lines(bytes@) == Some(views(v@)),
            Err(e) => jsonl_record_lines(bytes@) is None && e@.code == ErrorCode::InvalidArgument
                && e@.message == "jsonl is not valid utf-8"@
                && sorted_key_set_of(e@.details, seq![seq!["path"@, rel_path@], seq!["cause"@, utf8_error_text(bytes@)]]),
        },
{
    if bytes.len() == 0 {
        return Ok(Vec::new());
    }
    let text = match decode_utf8_bytes(bytes) {
        Ok(t) => t,
        Err(cause) => {
            let e0 = KbError::invalid_with_detail("jsonl is not valid utf-8", "path", rel_path);
            let e = e0.with_detail("cause", cause.as_str());
            proof {
                let p0 = seq![seq!["path"@, rel_path@]];
                assert(e0@.details == p0);
                assert(sorted_key_set_of(e0@.details, p0)) by {
                    crate::error::lemma_single_sorted(e0@.details, seq!["path"@, rel_path@]);
                }
                crate::error::lemma_details_grow(e@.details, e0@.details, p0, "cause"@, cause@);
                assert(p0.push(seq!["cause"@, cause@]) =~= seq![seq!["path"@, rel_path@], seq!["cause"@, cause@]]);
            }
            return Err(e);
        },
    };
    let chars = crate::text::chars_of(text);
    let ls = lines_of(chars.as_slice());
    let ghost lv = ls@.map_values(|p: Vec<char>| p@);
    let mut out: Vec<String> = Vec::new();
    let mut i: usize = 0;
    while i < ls.len()
        invariant
            i <= ls@.len(),
            lv == ls@.map_values(|p: Vec<char>| p@),
            views(out@) == non_blank(lv.take(i as int)),
        decreases ls@.len() - i,
    {
        assert(lv.take(i + 1).drop_last() =~= lv.take(i as int));
        assert(lv.take(i + 1).last() == ls@[i as int]@);
        let ghost prev = views(out@);
        if trim_chars(ls[i].as_slice()).len() > 0 {
            out.push(string_of(ls[i].as_slice()));
            assert(views(out@) =~= prev + seq![ls@[i as int]@]);
        } else {
            assert(views(out@) =~= prev + Seq::<Chars>::empty());
        }
        i += 1;
    }
    assert(lv.take(ls@.len() as int) =~= lv);
    Ok(out)
}

/// Parse outcomes in order: the first error (reported with `message` and its
/// cause), else the values.
pub open spec fn collected<T>(lines: Seq<Result<T, Chars>>, message: Chars) -> Result<Seq<T>, KbErrorView>
    decreases lines.len(),
{
    if lines.len() == 0 {
        Ok(Seq::empty())
    } else {
        match collected(lines.drop_last(), message) {
            Err(e) => Err(e),
            Ok(done) => match lines.last() {
                Err(c) => Err(invalid_with(message, "cause"@, c)),
                Ok(v) => Ok(done.push(v)),
            },
        }
    }
}

proof fn lemma_collected_error_stays<T>(lines: Seq<Result<T, Chars>>, message: Chars, n: int, e: KbErrorView)
    requires
        0 <= n <= lines.len(),
        collected(lines.take(n), message) == Err::<Seq<T>, KbErrorView>(e),
    ensures
        collected(lines, message) == Err::<Seq<T>, KbErrorView>(e),
    decreases lines.len() - n,
{
    if n < lines.len() {
        assert(lines.take(n + 1).drop_last() =~= lines.take(n));
        lemma_collected_error_stays(lines, message, n + 1, e);
    } else {
        assert(lines.take(n) =~= lines);
    }
}

/// Gathers parsed records: the first parse error, else all of them.
pub fn collect_parsed<T>(lines: Vec<Result<T, String>>, message: &str) -> (r: Result<Vec<T>, KbError>)
    ensures
        match r {
            Ok(v) => collected(parse_views(lines@), message@) == Ok::<Seq<T>, KbErrorView>(v@),
            Err(e) => collected(parse_views(lines@), message@) == Err::<Seq<T>, KbErrorView>(e@),
        },
{
    let ghost pv = parse_views(lines@);
    let n = lines.len();
    let mut rest = lines;
    let mut stack: Vec<Result<T, String>> = Vec::new();
    while rest.len() > 0
        invariant
            rest@.len() + stack@.len() == n,
            n == pv.len(),
            pv == parse_views(lines@),
            forall|k: int| 0 <= k < rest@.len() ==> parse_view(#[trigger] rest@[k]) == pv[k],
            forall|k: int| 0 <= k < stack@.len() ==> parse_view(#[trigger] stack@[k]) == pv[n - 1 - k],
        decreases rest@.len(),
    {
        let x = rest.pop().unwrap();
        stack.push(x);
    }
    let mut out: Vec<T> = Vec::new();
    let mut i: usize = 0;
    assert(pv.take(0) =~= Seq::<Result<T, Chars>>::empty());
    while stack.len() > 0
        invariant
            i + stack@.len() == n,
            n == pv.len(),
            pv == parse_views(lines@),
            forall|k: int| 0 <= k < stack@.len() ==> parse_view(#[trigger] stack@[k]) == pv[n - 1 - k],
            collected(pv.take(i as int), message@) == Ok::<Seq<T>, KbErrorView>(out@),
        decreases stack@.len(),
    {
        let x = stack.pop().unwrap();
        assert(parse_view(x) == pv[i as int]);
        assert(pv.take(i + 1).drop_last() =~= pv.take(i as int));
        assert(pv.take(i + 1).last() == pv[i as int]);
        match x {
            Err(cause) => {
                let e = KbError::invalid_with_detail(message, "cause", cause.as_str());
                proof {
                    lemma_collected_error_stays(pv, message@, i + 1, e@);
                }
                return Err(e);
            },
            Ok(v) => {
                out.push(v);
            },
        }
        i += 1;
    }
    assert(pv.take(n as int) =~= pv);
    Ok(out)
}

} // verus!

verus! {

/// The text of a file from what reading its bytes gave: the read's error;
/// else the decoded text when the bytes are UTF-8; else an invalid-argument
/// error naming the path and the decoding error.
pub fn text_of_read(read: Result<Vec<u8>, KbError>, rel_path: &str) -> (r: Result<String, KbError>)
    ensures
        match read {
            Err(e) => r matches Err(e2) && e2@ == e@,
            Ok(b) => if vstd::utf8::valid_utf8(b@) {
                r matches Ok(s) && s@ == vstd::utf8::decode_utf8(b@)
            } else {
                r matches Err(e) && e@.code == ErrorCode::InvalidArgument && e@.message == "file is not valid utf-8"@
                    && sorted_key_set_of(e@.details, seq![seq!["path"@, rel_path@], seq!["cause"@, utf8_error_text(b@)]])
            },
        },
{
    let bytes = match read {
        Err(e) => return Err(e),
        Ok(b) => b,
    };
    match decode_utf8_bytes(bytes.as_slice()) {
        Ok(t) => Ok(crate::text::copy_str(t)),
        Err(cause) => {
            let e0 = KbError::invalid_with_detail("file is not valid utf-8", "path", rel_path);
            let e = e0.with_detail("cause", cause.as_str());
            proof {
                let p0 = seq![seq!["path"@, rel_path@]];
                assert(e0@.details == p0);
                assert(sorted_key_set_of(e0@.details, p0)) by {
                    crate::error::lemma_single_sorted(e0@.details, seq!["path"@, rel_path@]);
                }
                crate::error::lemma_details_grow(e@.details, e0@.details, p0, "cause"@, cause@);
                assert(p0.push(seq!["cause"@, cause@]) =~= seq![seq!["path"@, rel_path@], seq!["cause"@, cause@]]);
            }
            Err(e)
        },
    }
}

/// A text read where a missing file is no error: the text; nothing when the
/// file was not found; the read's error otherwise.
pub fn text_if_found(read: Result<String, KbError>) -> (r: Result<Option<String>, KbError>)
    ensures
        match read {
            Ok(s) => r matches Ok(Some(t)) && t@ == s@,
            Err(e) => if e@.code == ErrorCode::NotFound {
                r matches Ok(None)
            } else {
                r matches Err(e2) && e2@ == e@
            },
        },
{
    match read {
        Ok(s) => Ok(Some(s)),
        Err(e) => if e.code == ErrorCode::NotFound {
            Ok(None)
        } else {
            Err(e)
        },
    }
}

} // verus!
