//! Joining file paths, as text with `/` between the components.

use vstd::prelude::*;

verus! {

/// `part` within `base`. An absolute `part` stands alone, and no second
/// separator follows one that is already there.
pub open spec fn within(base: Seq<char>, part: Seq<char>) -> Seq<char> {
    if part.len() > 0 && part[0] == '/' {
        part
    } else if base.len() == 0 || base.last() == '/' {
        base + part
    } else {
        base + "/"@ + part
    }
}

/// The path of `part` within `base`.
pub fn join(base: &str, part: &str) -> (r: String)
    ensures
        r@ == within(base@, part@),
{
    if part.unicode_len() > 0 && part.get_char(0) == '/' {
        return part.to_string();
    }
    let mut r: String = base.to_string();
    let n: usize = base.unicode_len();
    if n > 0 && base.get_char(n - 1) != '/' {
        r.append("/");
    }
    r.append(part);
    r
}

// ---------------------------------------------------------------------------
// Laws
// ---------------------------------------------------------------------------

/// A path within another is that path, one separator and the part: no second
/// separator follows one that is there, and none stands before a part where
/// there is no path. A part that starts at the root stands alone.
pub proof fn law_paths_are_joined_by_one_separator(base: Seq<char>, part: Seq<char>)
    ensures
        part.len() > 0 && part[0] == '/' ==> within(base, part) == part,
        (part.len() == 0 || part[0] != '/') && base.len() > 0 && base.last() != '/' ==> within(
            base,
            part,
        ) == base + seq!['/'] + part && within(base, part) == within(base + seq!['/'], part),
        (part.len() == 0 || part[0] != '/') && base.len() == 0 ==> within(base, part) == part,
        (part.len() == 0 || part[0] != '/') && base.len() > 0 && base.last() == '/' ==> within(
            base,
            part,
        ) == base + part,
{
    reveal_strlit("/");
    assert("/"@ =~= seq!['/']);
    if base.len() == 0 {
        assert(base + part =~= part);
    }
}

} // verus!
