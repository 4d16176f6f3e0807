//! Making a model's answer fit for one chat line.
use vstd::prelude::*;
use vstd::string::{StringExecFns, StringSliceAdditionalSpecFns};
use vstd::utf8::encode_utf8;
use crate::prompt::{replace_all, replace_text, MAX_LINE_LENGTH};
use crate::unicode::{is_longest_cut, UnicodeByteLimit};

verus! {

/// The text with the key (if any) redacted and the line breaks removed.
pub open spec fn one_line(s: Seq<char>, api_key: Option<Seq<char>>) -> Seq<char> {
    let redacted = match api_key {
        Some(k) => replace_all(s, k, "[REDACTED]"@),
        None => s,
    };
    replace_all(redacted, "\n"@, Seq::empty())
}

/// Redacts the API key (an error message may quote it), removes line breaks, and cuts the
/// text to the line limit, marking a cut with `...`.
pub fn sanitize_output(s: &str, api_key: &Option<&str>) -> (r: String)
    ensures
        ({
            let key = match api_key {
                Some(k) => Some(k@),
                None => None::<Seq<char>>,
            };
            let t = one_line(s@, key);
            &&& encode_utf8(t).len() <= MAX_LINE_LENGTH ==> r@ == t
            &&& encode_utf8(t).len() > MAX_LINE_LENGTH ==> exists|head: Seq<char>| {
                &&& r@ == head + "..."@
                &&& encode_utf8(head) == encode_utf8(t).subrange(0, encode_utf8(head).len() as int)
                &&& is_longest_cut(encode_utf8(t), MAX_LINE_LENGTH as int, encode_utf8(head).len() as int)
            }
        }),
{
    let redacted = match api_key {
        Some(k) => replace_text(s, k, "[REDACTED]"),
        None => s.to_string(),
    };
    proof {
        reveal_strlit("[REDACTED]");
        reveal_strlit("\n");
        reveal_strlit("");
    }
    let flat = replace_text(redacted.as_str(), "\n", "");
    let flat_str = flat.as_str();
    let ghost key = match api_key {
        Some(k) => Some(k@),
        None => None::<Seq<char>>,
    };
    proof {
        assert(""@ =~= Seq::<char>::empty());
        assert(flat_str@ == one_line(s@, key));
    }
    let truncated = flat_str.unicode_byte_limit(MAX_LINE_LENGTH);
    if truncated.as_bytes().len() != flat_str.as_bytes().len() {
        let mut out = truncated.to_string();
        out.append("...");
        proof {
            reveal_strlit("...");
            assert(encode_utf8(truncated@) == truncated.spec_bytes());
        }
        out
    } else {
        proof {
            if flat_str.spec_bytes().len() > MAX_LINE_LENGTH {
                assert(truncated.spec_bytes().len() <= MAX_LINE_LENGTH);
            }
            assert(truncated.spec_bytes() == flat_str.spec_bytes());
            vstd::utf8::encode_utf8_decode_utf8(truncated@);
            vstd::utf8::encode_utf8_decode_utf8(flat_str@);
        }
        truncated.to_string()
    }
}

} // verus!
