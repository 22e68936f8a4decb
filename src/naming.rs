//! File names of the decryption tool: which files it reads, and the name of
//! the file it writes beside each.
use vstd::prelude::*;
use vstd::string::StringExecFns;
use vstd::utf8::encode_utf8;

use crate::rotation::mode_name;

verus! {

/// `hay` holds `needle` as a contiguous run starting at `i`.
pub open spec fn occurs_at(hay: Seq<u8>, needle: Seq<u8>, i: int) -> bool {
    0 <= i && i + needle.len() <= hay.len() && hay.subrange(i, i + needle.len()) == needle
}

/// `hay` holds `needle` as a contiguous run.
pub open spec fn contains(hay: Seq<u8>, needle: Seq<u8>) -> bool {
    exists|i: int| #[trigger] occurs_at(hay, needle, i)
}

/// Whether `needle` occurs in `hay`.
fn contains_bytes(hay: &[u8], needle: &[u8]) -> (r: bool)
    ensures
        r == contains(hay@, needle@),
{
    if needle.len() > hay.len() {
        return false;
    }
    let size = hay.len();
    let last = size - needle.len();
    let mut i: usize = 0;
    while i <= last
        invariant
            size == hay@.len(),
            last == hay@.len() - needle@.len(),
            needle@.len() <= hay@.len(),
            forall|k: int| 0 <= k < i ==> !#[trigger] occurs_at(hay@, needle@, k),
        decreases last + 1 - i,
    {
        let mut j: usize = 0;
        while j < needle.len() && hay[i + j] == needle[j]
            invariant
                i <= last,
                size == hay@.len(),
                last == hay@.len() - needle@.len(),
                j <= needle@.len(),
                forall|t: int| 0 <= t < j ==> hay@[i + t] == needle@[t],
            decreases needle@.len() - j,
        {
            j = j + 1;
        }
        if j == needle.len() {
            proof {
                assert(hay@.subrange(i as int, i + needle@.len()) =~= needle@);
                assert(occurs_at(hay@, needle@, i as int));
            }
            return true;
        }
        proof {
            assert(hay@.subrange(i as int, i + needle@.len())[j as int] != needle@[j as int]);
        }
        i = i + 1;
    }
    proof {
        assert forall|k: int| !#[trigger] occurs_at(hay@, needle@, k) by {
            if 0 <= k && k + needle@.len() <= hay@.len() {
                assert(k < i);
            }
        }
    }
    false
}

/// Whether a file name marks an encrypted log: it holds `encrypt`.
pub fn is_encrypt_file(file_name: &str) -> (r: bool)
    ensures
        r == contains(encode_utf8(file_name@), mode_name(true)),
{
    let marker: [u8; 7] = [101u8, 110, 99, 114, 121, 112, 116];
    proof {
        assert(marker@ =~= mode_name(true));
    }
    contains_bytes(file_name.as_bytes(), marker.as_slice())
}

/// The name of a file whose stem is `stem` and extension `extension`, with
/// `suffix` added to the stem: `{stem}{suffix}.{extension}`, or
/// `{stem}{suffix}` without an extension.
pub fn append_to_filename(stem: &str, suffix: &str, extension: Option<&str>) -> (r: String)
    ensures
        extension is None ==> r@ == stem@ + suffix@,
        extension matches Some(e) ==> r@ == stem@ + suffix@ + seq!['.'] + e@,
{
    let mut name = String::from_str(stem);
    name.append(suffix);
    match extension {
        Some(e) => {
            name.append(".");
            proof {
                reveal_strlit(".");
            }
            name.append(e);
            proof {
                assert(name@ =~= stem@ + suffix@ + seq!['.'] + e@);
            }
        },
        None => {},
    }
    name
}

} // verus!
