//! JSON text.

use vstd::prelude::*;

verus! {

/// The text that stands under a name in the object that a JSON text describes, none where the
/// text is no JSON, describes no object, or has no text under that name.
pub uninterp spec fn json_text_under(json: Seq<char>, name: Seq<char>) -> Option<Seq<char>>;

/// `serde_json::from_str` into a `serde_json::Value`, of which `Value::get` takes what stands
/// under the name and `Value::as_str` its text, copied. What comes back depends on the text
/// and the name alone; which texts are JSON is the crate's matter, and is not spelled out.
#[verifier::external_body]
pub(crate) fn text_under(json: &str, name: &str) -> (found: Option<String>)
    ensures
        match found {
            Some(s) => json_text_under(json@, name@) == Some(s@),
            None => json_text_under(json@, name@) is None,
        },
{
    let value: serde_json::Value = serde_json::from_str(json).ok()?;
    value.get(name)?.as_str().map(|s| s.to_owned())
}

}
