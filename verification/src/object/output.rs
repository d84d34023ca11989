//! Compiled objects and the artifacts made from them.

use std::time::SystemTime;

use vstd::prelude::*;

use crate::utils::{normalize_path, normalized};

verus! {

#[verifier::external_type_specification]
#[verifier::external_body]
pub struct ExSystemTime(SystemTime);

/// One compiled object file.
pub struct Object {
    pub path: String,
    pub modified: Option<SystemTime>,
}

/// The objects compiled for one target.
pub struct ObjectCollection {
    pub objects: Vec<Object>,
}

/// The paths of the objects as handed to tools (see `normalized`), in order.
pub open spec fn arg_paths(objects: Seq<Object>, windows: bool) -> Seq<Seq<char>> {
    objects.map_values(|o: Object| normalized(o.path@, windows))
}

/// Each path followed by one space, all concatenated.
pub open spec fn arg_str_spec(paths: Seq<Seq<char>>) -> Seq<char>
    decreases paths.len(),
{
    if paths.len() == 0 {
        Seq::empty()
    } else {
        arg_str_spec(paths.drop_last()) + paths.last() + seq![' ']
    }
}

impl ObjectCollection {
    /// The object paths as one string, each path followed by a space; on
    /// Windows (`windows`) each path is normalized first.
    pub fn to_arg_str(&self, windows: bool) -> (r: String)
        ensures
            r@ == arg_str_spec(arg_paths(self.objects@, windows)),
    {
        let ghost paths = arg_paths(self.objects@, windows);
        let mut arg_str = String::new();
        let mut i: usize = 0;
        while i < self.objects.len()
            invariant
                i <= self.objects@.len(),
                paths == arg_paths(self.objects@, windows),
                arg_str@ == arg_str_spec(paths.subrange(0, i as int)),
            decreases self.objects.len() - i,
        {
            let path = normalize_path(self.objects[i].path.clone(), windows);
            arg_str.append(path.as_str());
            arg_str.append(" ");
            proof {
                reveal_strlit(" ");
                assert(" "@ =~= seq![' ']);
                assert(paths.subrange(0, i + 1).drop_last() =~= paths.subrange(0, i as int));
                assert(paths.subrange(0, i + 1).last() == path@);
                assert(arg_str@ =~= arg_str_spec(paths.subrange(0, i + 1)));
            }
            i = i + 1;
        }
        assert(paths.subrange(0, i as int) =~= paths);
        arg_str
    }

    /// The object paths, one argument each; on Windows (`windows`) each
    /// path is normalized.
    pub fn to_args(&self, windows: bool) -> (r: Vec<String>)
        ensures
            r.deep_view() == arg_paths(self.objects@, windows),
    {
        let mut args: Vec<String> = Vec::new();
        let mut i: usize = 0;
        while i < self.objects.len()
            invariant
                i <= self.objects@.len(),
                args@.len() == i,
                forall|k: int| 0 <= k < i ==> #[trigger] args@[k]@ == normalized(self.objects@[k].path@, windows),
            decreases self.objects.len() - i,
        {
            args.push(normalize_path(self.objects[i].path.clone(), windows));
            i = i + 1;
        }
        assert(args.deep_view() =~= arg_paths(self.objects@, windows));
        args
    }
}

/// An executable output.
pub struct Execuable {}

/// A static library output.
pub struct StaticLib {}

/// A shared library output.
pub struct SharedLib {}

} // verus!
