use vstd::prelude::*;

verus! {

/// `serde_urlencoded::ser::Error`, why a value could not be encoded. It is
/// carried through and never looked into.
#[verifier::external_type_specification]
#[verifier::external_body]
pub struct ExQueryError(serde_urlencoded::ser::Error);

/// The `application/x-www-form-urlencoded` text of a sequence of pairs,
/// each a key and the bytes of its value; nothing where the encoder refuses
/// the pairs, as it does where the bytes of a value are no text.
pub uninterp spec fn form_encoded(pairs: Seq<(Seq<char>, Seq<u8>)>) -> Option<Seq<char>>;

/// The keys and values of `pairs`.
pub open spec fn pairs_view(pairs: Seq<(String, Vec<u8>)>) -> Seq<(Seq<char>, Seq<u8>)> {
    pairs.map_values(|p: (String, Vec<u8>)| (p.0@, p.1@))
}

/// `serde_urlencoded::to_string` on a sequence of pairs whose values are
/// byte strings. Trusted: whether it succeeds, and the text that it then
/// gives, depend on the keys and values alone, and are what the name
/// `form_encoded` stands for on these pairs.
#[verifier::external_body]
pub(crate) fn form_urlencode(pairs: &Vec<(String, Vec<u8>)>) -> (r: Result<String, serde_urlencoded::ser::Error>)
    ensures
        match form_encoded(pairs_view(pairs@)) {
            Some(text) => r matches Ok(s) && s@ == text,
            None => r is Err,
        },
{
    let refs: Vec<(&str, &serde_bytes::Bytes)> = pairs.iter().map(
        |p| (p.0.as_str(), serde_bytes::Bytes::new(&p.1)),
    ).collect();
    serde_urlencoded::to_string(&refs)
}

} // verus!
