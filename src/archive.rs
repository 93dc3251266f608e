use vstd::prelude::*;
use vstd::string::StringSliceAdditionalSpecFns;
use vstd::utf8::encode_utf8;

verus! {

/// Whether byte string `s` ends with `suffix`.
pub open spec fn ends_with(s: Seq<u8>, suffix: Seq<u8>) -> bool {
    suffix.len() <= s.len() && s.subrange(s.len() - suffix.len(), s.len() as int) == suffix
}

fn bytes_end_with(s: &[u8], suffix: &[u8]) -> (r: bool)
    ensures
        r == ends_with(s@, suffix@),
{
    if suffix.len() > s.len() {
        return false;
    }
    let n: usize = s.len();
    let off: usize = n - suffix.len();
    let mut i: usize = 0;
    while i < suffix.len()
        invariant
            n == s@.len(),
            off + suffix@.len() == n,
            i <= suffix@.len(),
            forall|j: int| 0 <= j < i ==> s@[off + j] == suffix@[j],
        decreases suffix@.len() - i,
    {
        if s[off + i] != suffix[i] {
            assert(s@.subrange(off as int, s@.len() as int)[i as int] != suffix@[i as int]);
            return false;
        }
        i = i + 1;
    }
    assert(s@.subrange(off as int, s@.len() as int) =~= suffix@);
    true
}

/// Position of the first name that ends with `file_name`, compared as UTF-8
/// bytes; `None` when no name does.
pub fn position_ending_with(names: &Vec<String>, file_name: &str) -> (r: Option<usize>)
    ensures
        match r {
            Some(i) => i < names@.len() && ends_with(encode_utf8(names@[i as int]@), encode_utf8(file_name@))
                && forall|j: int| 0 <= j < i ==> !ends_with(#[trigger] encode_utf8(names@[j]@), encode_utf8(file_name@)),
            None => forall|j: int| 0 <= j < names@.len() ==> !ends_with(#[trigger] encode_utf8(names@[j]@), encode_utf8(file_name@)),
        },
{
    let suffix = file_name.as_bytes();
    let mut i: usize = 0;
    while i < names.len()
        invariant
            i <= names@.len(),
            suffix@ == encode_utf8(file_name@),
            forall|j: int| 0 <= j < i ==> !ends_with(#[trigger] encode_utf8(names@[j]@), encode_utf8(file_name@)),
        decreases names@.len() - i,
    {
        let name: &str = names[i].as_str();
        if bytes_end_with(name.as_bytes(), suffix) {
            return Some(i);
        }
        i = i + 1;
    }
    None
}

} // verus!
