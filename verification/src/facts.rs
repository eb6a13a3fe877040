//! Fact records (`kb/facts/facts.jsonl`): the shape checks the readers apply.
use vstd::prelude::*;

use crate::error::{invalid, invalid_with, KbError, KbErrorView};
use crate::json::{get_str_field, str_field, JsonValue};
use crate::text::Chars;

verus! {

/// Which fields a reader insists on, and in which order it checks them.
#[derive(Clone, Copy, Debug, PartialEq, Eq, Structural)]
pub enum RecordCheck {
    /// An object with a string `fact_id`.
    IdOnly,
    /// An object with a string `type`, then a string `fact_id`.
    TypeThenId,
    /// An object with a string `fact_id`, then a string `type`.
    IdThenType,
}

pub open spec fn missing_id() -> KbErrorView {
    invalid("fact record missing fact_id"@)
}

pub open spec fn missing_type() -> KbErrorView {
    invalid("fact record missing type"@)
}

/// Checking one fact record.
pub open spec fn record_check(v: JsonValue, mode: RecordCheck) -> Result<(), KbErrorView> {
    if !(v is Object) {
        Err(invalid("fact record must be a JSON object"@))
    } else {
        match mode {
            RecordCheck::IdOnly => if str_field(v, "fact_id"@) is None { Err(missing_id()) } else { Ok(()) },
            RecordCheck::TypeThenId => if str_field(v, "type"@) is None {
                Err(missing_type())
            } else if str_field(v, "fact_id"@) is None {
                Err(missing_id())
            } else {
                Ok(())
            },
            RecordCheck::IdThenType => if str_field(v, "fact_id"@) is None {
                Err(missing_id())
            } else if str_field(v, "type"@) is None {
                Err(missing_type())
            } else {
                Ok(())
            },
        }
    }
}

/// Checks one fact record.
pub fn check_record(v: &JsonValue, mode: RecordCheck) -> (r: Result<(), KbError>)
    ensures
        crate::overlay::check_view(r) == record_check(*v, mode),
{
    let is_object = match v {
        JsonValue::Object(_) => true,
        _ => false,
    };
    if !is_object {
        return Err(KbError::invalid_argument("fact record must be a JSON object"));
    }
    let has_id = get_str_field(v, "fact_id").is_some();
    let has_type = get_str_field(v, "type").is_some();
    match mode {
        RecordCheck::IdOnly => if !has_id {
            return Err(KbError::invalid_argument("fact record missing fact_id"));
        },
        RecordCheck::TypeThenId => {
            if !has_type {
                return Err(KbError::invalid_argument("fact record missing type"));
            }
            if !has_id {
                return Err(KbError::invalid_argument("fact record missing fact_id"));
            }
        },
        RecordCheck::IdThenType => {
            if !has_id {
                return Err(KbError::invalid_argument("fact record missing fact_id"));
            }
            if !has_type {
                return Err(KbError::invalid_argument("fact record missing type"));
            }
        },
    }
    Ok(())
}

/// Checking records in order: the first error.
pub open spec fn records_check(records: Seq<JsonValue>, mode: RecordCheck) -> Result<(), KbErrorView>
    decreases records.len(),
{
    if records.len() == 0 {
        Ok(())
    } else if record_check(records[0], mode) is Err {
        record_check(records[0], mode)
    } else {
        records_check(records.drop_first(), mode)
    }
}

/// Checks every record, in order.
pub fn check_records(records: &Vec<JsonValue>, mode: RecordCheck) -> (r: Result<(), KbError>)
    ensures
        crate::overlay::check_view(r) == records_check(records@, mode),
{
    let mut i: usize = 0;
    assert(records@.skip(0) =~= records@);
    while i < records.len()
        invariant
            i <= records@.len(),
            records_check(records@, mode) == records_check(records@.skip(i as int), mode),
        decreases records@.len() - i,
    {
        assert(records@.skip(i as int)[0] == records@[i as int]);
        assert(records@.skip(i as int).drop_first() =~= records@.skip(i + 1));
        check_record(&records[i], mode)?;
        i += 1;
    }
    assert(records@.skip(records@.len() as int) =~= Seq::<JsonValue>::empty());
    Ok(())
}

/// A parse outcome as the contracts see it: the value, or the error's text.
pub open spec fn parse_view<T>(r: Result<T, String>) -> Result<T, Chars> {
    match r {
        Ok(v) => Ok(v),
        Err(e) => Err(e@),
    }
}

pub open spec fn parse_views<T>(lines: Seq<Result<T, String>>) -> Seq<Result<T, Chars>> {
    lines.map_values(|r: Result<T, String>| parse_view(r))
}

/// Reading parsed lines one at a time, checking each record as it comes: the
/// first parse error (reported with `message`) or check error, else the records.
pub open spec fn checked_lines(lines: Seq<Result<JsonValue, Chars>>, message: Chars, mode: RecordCheck) -> Result<Seq<JsonValue>, KbErrorView>
    decreases lines.len(),
{
    if lines.len() == 0 {
        Ok(Seq::empty())
    } else {
        match checked_lines(lines.drop_last(), message, mode) {
            Err(e) => Err(e),
            Ok(done) => match lines.last() {
                Err(cause) => Err(invalid_with(message, "cause"@, cause)),
                Ok(v) => match record_check(v, mode) {
                    Err(e) => Err(e),
                    Ok(()) => Ok(done.push(v)),
                },
            },
        }
    }
}

proof fn lemma_checked_lines_error_stays(lines: Seq<Result<JsonValue, Chars>>, message: Chars, mode: RecordCheck, n: int, e: KbErrorView)
    requires
        0 <= n <= lines.len(),
        checked_lines(lines.take(n), message, mode) == Err::<Seq<JsonValue>, KbErrorView>(e),
    ensures
        checked_lines(lines, message, mode) == Err::<Seq<JsonValue>, KbErrorView>(e),
    decreases lines.len() - n,
{
    if n < lines.len() {
        assert(lines.take(n + 1).drop_last() =~= lines.take(n));
        lemma_checked_lines_error_stays(lines, message, mode, n + 1, e);
    } else {
        assert(lines.take(n) =~= lines);
    }
}

/// Reads parsed lines one at a time, checking each record as it comes.
pub fn check_fact_lines(lines: Vec<Result<JsonValue, String>>, message: &str, mode: RecordCheck) -> (r: Result<Vec<JsonValue>, KbError>)
    ensures
        match r {
            Ok(v) => checked_lines(parse_views(lines@), message@, mode) == Ok::<Seq<JsonValue>, KbErrorView>(v@),
            Err(e) => checked_lines(parse_views(lines@), message@, mode) == Err::<Seq<JsonValue>, KbErrorView>(e@),
        },
{
    let ghost pv = parse_views(lines@);
    let n = lines.len();
    let mut rest = lines;
    let mut out: Vec<JsonValue> = Vec::new();
    let mut reversed_rest: Vec<Result<JsonValue, String>> = Vec::new();
    // Take the lines in order by moving them into a reversed stack.
    while rest.len() > 0
        invariant
            rest@.len() + reversed_rest@.len() == n,
            n == pv.len(),
            pv == parse_views(lines@),
            forall|k: int| 0 <= k < rest@.len() ==> parse_view(#[trigger] rest@[k]) == pv[k],
            forall|k: int| 0 <= k < reversed_rest@.len() ==> parse_view(#[trigger] reversed_rest@[k]) == pv[n - 1 - k],
        decreases rest@.len(),
    {
        let x = rest.pop().unwrap();
        reversed_rest.push(x);
    }
    let mut i: usize = 0;
    assert(pv.take(0) =~= Seq::<Result<JsonValue, Chars>>::empty());
    while reversed_rest.len() > 0
        invariant
            i + reversed_rest@.len() == n,
            n == pv.len(),
            pv == parse_views(lines@),
            forall|k: int| 0 <= k < reversed_rest@.len() ==> parse_view(#[trigger] reversed_rest@[k]) == pv[n - 1 - k],
            checked_lines(pv.take(i as int), message@, mode) == Ok::<Seq<JsonValue>, KbErrorView>(out@),
        decreases reversed_rest@.len(),
    {
        let ghost last = reversed_rest@.len() - 1;
        let x = reversed_rest.pop().unwrap();
        assert(parse_view(x) == pv[i as int]);
        assert(pv.take(i + 1).drop_last() =~= pv.take(i as int));
        assert(pv.take(i + 1).last() == pv[i as int]);
        match x {
            Err(cause) => {
                let e = KbError::invalid_with_detail(message, "cause", cause.as_str());
                proof {
                    lemma_checked_lines_error_stays(pv, message@, mode, i + 1, e@);
                }
                return Err(e);
            },
            Ok(v) => {
                match check_record(&v, mode) {
                    Err(e) => {
                        proof {
                            lemma_checked_lines_error_stays(pv, message@, mode, i + 1, e@);
                        }
                        return Err(e);
                    },
                    Ok(()) => {},
                }
                out.push(v);
            },
        }
        i += 1;
    }
    assert(pv.take(n as int) =~= pv);
    Ok(out)
}

} // verus!
