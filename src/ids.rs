//! Generated storage names: a random identifier followed by the file's own extension.

use vstd::prelude::*;
use vstd::string::StringExecFns;

verus! {

/// A lower-case hexadecimal digit.
pub open spec fn is_lower_hex(c: char) -> bool {
    ('0' <= c && c <= '9') || ('a' <= c && c <= 'f')
}

/// The hyphenated textual form of a 128-bit identifier: 32 lower-case hex
/// digits in groups of 8, 4, 4, 4 and 12, separated by `-`.
pub open spec fn is_hyphenated_id(s: Seq<char>) -> bool {
    &&& s.len() == 36
    &&& forall|i: int|
        0 <= i < 36 ==> if i == 8 || i == 13 || i == 18 || i == 23 {
            #[trigger] s[i] == '-'
        } else {
            is_lower_hex(s[i])
        }
}

/// Relies on `uuid::Uuid::new_v4` for a random identifier, and on its
/// `Display`, which writes the lower-case hyphenated form.
#[verifier::external_body]
fn new_storage_id() -> (r: String)
    ensures
        is_hyphenated_id(r@),
{
    uuid::Uuid::new_v4().to_string()
}

/// The storage name for identifier `id` and extension `ext`: `id` alone when
/// the extension is empty, else `id.ext`.
pub open spec fn storage_name_of(id: Seq<char>, ext: Seq<char>) -> Seq<char> {
    if ext.len() == 0 {
        id
    } else {
        id + seq!['.'] + ext
    }
}

/// Builds the storage name for identifier `id` and extension `ext`.
pub fn storage_name(id: &str, ext: &str) -> (r: String)
    ensures
        r@ == storage_name_of(id@, ext@),
{
    let mut name = id.to_owned();
    if !ext.is_empty() {
        name.append(".");
        name.append(ext);
        proof {
            reveal_strlit(".");
        }
    }
    name
}

/// A fresh storage name with extension `ext`, under a newly drawn identifier.
pub fn choose_filename(ext: &str) -> (r: String)
    ensures
        exists|id: Seq<char>| is_hyphenated_id(id) && r@ == storage_name_of(id, ext@),
{
    let id = new_storage_id();
    storage_name(id.as_str(), ext)
}

} // verus!
