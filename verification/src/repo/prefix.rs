//! Path prefixes of obligation rules: normalized like paths, but a trailing
//! `/` is kept, so that `src/` matches `src/lib.rs` and not `src2/`.
use vstd::prelude::*;

use crate::error::{invalid, invalid_with, KbError, KbErrorView};
use crate::repo::path::{
    dot_dot, has_control, has_control_chars, keep_segments, normalized_segments, raw_segments,
};
use crate::text::{join, join_chars, push_char, string_of, trim, trim_str, Chars};

verus! {

/// What `normalize_path_prefix` makes of its input.
pub open spec fn normalize_prefix(input: Chars) -> Result<Chars, KbErrorView> {
    let t = trim(input);
    if t.len() == 0 {
        Err(invalid("path prefix must not be empty"@))
    } else if t[0] == '/' {
        Err(invalid_with("path prefix must be repo-relative"@, "prefix"@, t))
    } else if has_control(t) {
        Err(invalid_with("path prefix contains invalid characters"@, "prefix"@, t))
    } else if raw_segments(t).contains(dot_dot()) {
        Err(invalid_with("path prefix must not contain '..'"@, "prefix"@, t))
    } else {
        let out = join(keep_segments(raw_segments(t)), seq!['/']);
        if t.last() == '/' && out.len() > 0 {
            Ok(out.push('/'))
        } else {
            Ok(out)
        }
    }
}

pub fn normalize_path_prefix(input: &str) -> (r: Result<String, KbError>)
    ensures
        r matches Ok(s) ==> normalize_prefix(input@) == Ok::<Chars, KbErrorView>(s@),
        r matches Err(e) ==> normalize_prefix(input@) == Err::<Chars, KbErrorView>(e@),
{
    let t = trim_str(input);
    if t.len() == 0 {
        return Err(KbError::invalid_argument("path prefix must not be empty"));
    }
    let shown = string_of(t.as_slice());
    if t[0] == '/' {
        return Err(
            KbError::invalid_with_detail(
                "path prefix must be repo-relative",
                "prefix",
                shown.as_str(),
            ),
        );
    }
    if has_control_chars(t.as_slice()) {
        return Err(
            KbError::invalid_with_detail(
                "path prefix contains invalid characters",
                "prefix",
                shown.as_str(),
            ),
        );
    }
    let ends_with_slash = t[t.len() - 1] == '/';
    match normalized_segments(t.as_slice()) {
        None => Err(
            KbError::invalid_with_detail(
                "path prefix must not contain '..'",
                "prefix",
                shown.as_str(),
            ),
        ),
        Some(segs) => {
            let joined = join_chars(&segs, &['/']);
            assert(['/']@ =~= seq!['/']);
            let mut out = string_of(joined.as_slice());
            if ends_with_slash && joined.len() > 0 {
                push_char(&mut out, '/');
            }
            Ok(out)
        },
    }
}

} // verus!

verus! {

/// A prefix that normalizing gives is a fixed point of normalizing, unless
/// it starts or ends with white space (as `./ a` gives ` a`).
pub proof fn law_prefix_fixed_point(input: Chars, o: Chars)
    requires
        normalize_prefix(input) == Ok::<Chars, KbErrorView>(o),
        o.len() > 0,
        trim(o) == o,
    ensures
        normalize_prefix(o) == Ok::<Chars, KbErrorView>(o),
{
    let t = trim(input);
    let rt = crate::text::replace_char(t, '\\', '/');
    let r = raw_segments(t);
    let k = keep_segments(r);
    let out = join(k, seq!['/']);
    let slash = t.last() == '/' && out.len() > 0;
    assert(o == if slash { out.push('/') } else { out });
    crate::repo::path::lemma_keep_segments_props(r);
    crate::text::lemma_split_pieces(rt, '/');
    assert(k.len() >= 1) by {
        if k.len() == 0 {
            assert(out.len() == 0);
        }
    }
    assert forall|i: int| 0 <= i < k.len() implies !(#[trigger] k[i]).contains('/') && !k[i].contains('\\') by {
        let j = choose|j: int| 0 <= j < r.len() && r[j] == k[i];
        if k[i].contains('/') {
            assert(r[j].contains('/'));
        }
        if k[i].contains('\\') {
            assert(r[j].contains('\\'));
            assert(rt.contains('\\'));
            let m = choose|m: int| 0 <= m < rt.len() && rt[m] == '\\';
            assert(rt[m] == (if t[m] == '\\' { '/' } else { t[m] }));
        }
    }
    assert forall|c: char| #[trigger] out.contains(c) && c != '/' implies t.contains(c) && c != '\\' by {
        crate::text::lemma_join_chars(k, '/', c);
        let i = choose|i: int| 0 <= i < k.len() && (#[trigger] k[i]).contains(c);
        let j = choose|j: int| 0 <= j < r.len() && r[j] == k[i];
        assert(r[j].contains(c));
        assert(rt.contains(c));
        let m = choose|m: int| 0 <= m < rt.len() && rt[m] == c;
        assert(rt[m] == (if t[m] == '\\' { '/' } else { t[m] }));
        assert(t[m] == c);
    }
    assert forall|c: char| #[trigger] o.contains(c) && c != '/' implies t.contains(c) && c != '\\' by {
        let m = choose|m: int| 0 <= m < o.len() && o[m] == c;
        if slash && m == out.len() {
            assert(o[m] == '/');
        } else {
            assert(out[m] == c);
            assert(out.contains(c));
        }
    }
    assert(!has_control(o)) by {
        if o.contains('\0') {
            assert(t.contains('\0'));
        }
        if o.contains('\n') {
            assert(t.contains('\n'));
        }
        if o.contains('\r') {
            assert(t.contains('\r'));
        }
    }
    crate::text::lemma_join_first(k, '/');
    assert(o[0] == out[0]);
    assert(o[0] != '/') by {
        assert(k[0].contains(k[0][0]));
    }
    assert(crate::text::replace_char(o, '\\', '/') =~= o) by {
        assert forall|m: int| 0 <= m < o.len() implies o[m] != '\\' by {
            assert(o.contains(o[m]));
        }
    }
    crate::text::lemma_split_join(k, '/');
    let ro = raw_segments(o);
    let ko: Seq<Chars> = if slash { k.push(Seq::<char>::empty()) } else { k };
    assert(ro == ko) by {
        if slash {
            assert(o.drop_last() =~= out);
            assert(o.last() == '/');
        }
    }
    assert(!ro.contains(dot_dot())) by {
        if ro.contains(dot_dot()) {
            let i = choose|i: int| 0 <= i < ro.len() && ro[i] == dot_dot();
            if i < k.len() {
                assert(ro[i] == k[i]);
                assert(r.contains(k[i]));
            } else {
                assert(ro[i] == Seq::<char>::empty());
            }
        }
    }
    crate::repo::path::lemma_keep_segments_identity(k);
    assert(keep_segments(ro) == k) by {
        if slash {
            assert(ro.drop_last() =~= k);
        }
    }
    assert(o.last() == '/' <==> slash) by {
        if !slash && out.len() > 0 {
            let kl = k.last();
            if k.len() == 1 {
                assert(out == kl);
            } else {
                assert(out == join(k.drop_last(), seq!['/']) + seq!['/'] + kl);
            }
            assert(out.last() == kl.last());
            assert(kl.contains(kl.last()));
            assert(k[k.len() - 1] == kl);
        }
    }
}

} // verus!
