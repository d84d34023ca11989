//! Small path utilities.

use vstd::prelude::*;

verus! {

/// The Windows verbatim prefix `\\?\`.
pub open spec fn verbatim_prefix() -> Seq<char> {
    seq!['\\', '\\', '?', '\\']
}

/// `s` with every leading verbatim prefix removed.
pub open spec fn strip_verbatim(s: Seq<char>) -> Seq<char>
    decreases s.len(),
{
    if s.len() >= 4 && s.take(4) == verbatim_prefix() {
        strip_verbatim(s.skip(4))
    } else {
        s
    }
}

/// A path as it is handed to tools: on Windows without its leading
/// verbatim prefixes, elsewhere unchanged.
pub open spec fn normalized(path: Seq<char>, windows: bool) -> Seq<char> {
    if windows {
        strip_verbatim(path)
    } else {
        path
    }
}

/// Removes platform decorations from a path: on Windows (`windows`), every
/// leading verbatim prefix `\\?\`; other systems carry none, so the path
/// comes back unchanged.
pub fn normalize_path(path: String, windows: bool) -> (r: String)
    ensures
        r@ == normalized(path@, windows),
{
    if !windows {
        return path;
    }
    let s = path.as_str();
    let n = s.unicode_len();
    let mut i: usize = 0;
    assert(s@.skip(0) =~= s@);
    while n - i >= 4 && s.get_char(i) == '\\' && s.get_char(i + 1) == '\\' && s.get_char(i + 2) == '?'
        && s.get_char(i + 3) == '\\'
        invariant
            n == s@.len(),
            i <= n,
            strip_verbatim(s@) == strip_verbatim(s@.skip(i as int)),
        decreases n - i,
    {
        proof {
            let t = s@.skip(i as int);
            assert(t.take(4) =~= verbatim_prefix());
            assert(t.skip(4) =~= s@.skip(i + 4));
        }
        i = i + 4;
    }
    proof {
        let t = s@.skip(i as int);
        if t.len() >= 4 && t.take(4) == verbatim_prefix() {
            assert(t[0] == s@[i as int] && t[1] == s@[i + 1] && t[2] == s@[i + 2] && t[3] == s@[i + 3]);
            assert(t.take(4)[0] == t[0] && t.take(4)[1] == t[1] && t.take(4)[2] == t[2] && t.take(4)[3] == t[3]);
        }
    }
    let rest = s.substring_char(i, n);
    assert(rest@ =~= s@.skip(i as int));
    rest.to_string()
}

} // verus!
