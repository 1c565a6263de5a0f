//! The credit line stamped on rendered images, and whether the renderer runs
//! under continuous integration.
use vstd::prelude::*;

use vstd::string::{StringExecFns, StringSliceAdditionalSpecFns};
use vstd::utf8::{decode_utf8, encode_utf8_decode_utf8, is_char_boundary};

verus! {

/// The author credited on rendered images.
pub const AUTHOR: &'static str = "Yuanxin Cao";

/// The credit line: the author, then, where the commit id `github_sha` is
/// known, `@` and the first six bytes of that id.
pub fn get_text(github_sha: Option<&str>) -> (r: String)
    requires
        github_sha matches Some(sha) ==> is_char_boundary(sha.spec_bytes(), 6),
    ensures
        r@ == AUTHOR@ + match github_sha {
            Some(sha) => seq!['@'] + decode_utf8(sha.spec_bytes().subrange(0, 6)),
            None => Seq::<char>::empty(),
        },
{
    let mut text = String::from_str(AUTHOR);
    match github_sha {
        Some(sha) => {
            let (short, _) = sha.split_at(6);
            proof {
                reveal_strlit("@");
                encode_utf8_decode_utf8(short@);
            }
            text.append("@");
            text.append(short);
        },
        None => {
            assert(text@ == AUTHOR@ + Seq::<char>::empty());
        },
    }
    text
}

/// Whether the `CI` setting `ci` says that the renderer runs under continuous
/// integration: it does when the setting is exactly `true`.
pub fn is_ci(ci: Option<&str>) -> (r: bool)
    ensures
        r == (ci matches Some(s) && s@ == seq!['t', 'r', 'u', 'e']),
{
    match ci {
        Some(s) => {
            let b = s.as_bytes();
            let yes = b.len() == 4 && b[0] == 116u8 && b[1] == 114u8 && b[2] == 117u8 && b[3] == 101u8;
            proof {
                let t = seq!['t', 'r', 'u', 'e'];
                vstd::utf8::is_ascii_chars_encode_utf8(t);
                assert(vstd::utf8::encode_utf8(t) =~= seq![116u8, 114u8, 117u8, 101u8]);
                encode_utf8_decode_utf8(t);
                encode_utf8_decode_utf8(s@);
                if yes {
                    assert(s.spec_bytes() =~= seq![116u8, 114u8, 117u8, 101u8]);
                }
            }
            yes
        },
        None => false,
    }
}

} // verus!
