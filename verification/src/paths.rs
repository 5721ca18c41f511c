//! Path handling on plain strings.
//!
//! Paths here are the textual paths found in build logs, kept as strings
//! and split on `/`.  A path is relativized against the working directory
//! when that directory is a proper prefix followed by a separator; the
//! directory of a path is everything before its last separator, the whole
//! path when it has none, and `/` when the separator is the first
//! character.

use vstd::prelude::*;

verus! {

/// `file` with the working directory prefix removed: when `cwd` is
/// non-empty and `file` starts with `cwd` followed by `/`, the part after
/// that separator; otherwise `file` unchanged.
pub open spec fn strip_prefix_spec(file: Seq<char>, cwd: Seq<char>) -> Seq<char> {
    if cwd.len() > 0 && file.len() > cwd.len() && file.subrange(0, cwd.len() as int) == cwd
        && file[cwd.len() as int] == '/' {
        file.subrange(cwd.len() as int + 1, file.len() as int)
    } else {
        file
    }
}

/// The position of the last `/` at or before `j`.
pub open spec fn last_slash(t: Seq<char>, j: int) -> Option<int>
    decreases j + 1,
{
    if j < 0 || j >= t.len() {
        None
    } else if t[j] == '/' {
        Some(j)
    } else {
        last_slash(t, j - 1)
    }
}

/// The directory of `file`: the part before the last `/`, the whole path
/// when there is none, and `/` itself when the separator opens the path.
pub open spec fn dir_of(file: Seq<char>) -> Seq<char> {
    match last_slash(file, file.len() - 1) {
        Option::None => file,
        Option::Some(k) => if k == 0 {
            file.subrange(0, 1)
        } else {
            file.subrange(0, k)
        },
    }
}

/// A found separator lies within the searched range.
proof fn lemma_last_slash_bounds(t: Seq<char>, j: int)
    ensures
        match last_slash(t, j) {
            Option::None => true,
            Option::Some(k) => 0 <= k && k <= j && k < t.len() && t[k] == '/',
        },
    decreases j + 1,
{
    if 0 <= j && j < t.len() && t[j] != '/' {
        lemma_last_slash_bounds(t, j - 1);
    }
}

/// `file` relativized against the working directory `cwd`.
pub fn relativize(file: &str, cwd: &str) -> (r: String)
    ensures
        r@ == strip_prefix_spec(file@, cwd@),
{
    let cn = cwd.unicode_len();
    let fn_ = file.unicode_len();
    if cn == 0 || fn_ <= cn {
        return String::from_str(file);
    }
    // Does `file` start with `cwd`?
    let mut i: usize = 0;
    while i < cn
        invariant
            i <= cn,
            cn == cwd@.len(),
            fn_ == file@.len(),
            cn < fn_,
            forall|j: int| 0 <= j < i ==> file@[j] == cwd@[j],
        decreases cn - i,
    {
        if file.get_char(i) != cwd.get_char(i) {
            assert(file@[i as int] != cwd@[i as int]);
            assert(file@.subrange(0, cn as int) != cwd@) by {
                assert(file@.subrange(0, cn as int)[i as int] == file@[i as int]);
            }
            return String::from_str(file);
        }
        i = i + 1;
    }
    assert(file@.subrange(0, cn as int) =~= cwd@);
    if file.get_char(cn) == '/' {
        let r = String::from_str(file.substring_char(cn + 1, fn_));
        assert(r@ == strip_prefix_spec(file@, cwd@));
        r
    } else {
        String::from_str(file)
    }
}

/// The directory key for `file`: its parent path, `file` itself when it
/// has no separator, and `/` when the separator opens the path.
pub fn parent_or_self(file: &String) -> (r: String)
    ensures
        r@ == dir_of(file@),
{
    let n = file.as_str().unicode_len();
    let ghost t = file@;
    proof {
        lemma_last_slash_bounds(t, t.len() - 1);
    }
    if n == 0 {
        assert(last_slash(t, -1) is None);
        return file.clone();
    }
    // Search backwards for the last separator.
    let mut j: usize = n;
    while j > 0
        invariant
            j <= n,
            n == t.len(),
            t == file@,
            last_slash(t, t.len() - 1) == last_slash(t, j - 1),
        decreases j,
    {
        if file.as_str().get_char(j - 1) == '/' {
            assert(last_slash(t, j - 1) == Some(j - 1));
            if j - 1 == 0 {
                return String::from_str(file.as_str().substring_char(0, 1));
            }
            return String::from_str(file.as_str().substring_char(0, j - 1));
        }
        assert(last_slash(t, j - 1) == last_slash(t, j - 2));
        j = j - 1;
    }
    assert(last_slash(t, -1) is None);
    file.clone()
}

} // verus!
