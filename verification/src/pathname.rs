//! Replacing a file name's extension, for naming the converted download.

use vstd::prelude::*;

verus! {

/// The index of the last occurrence of `c` in `p`, or `-1` if there is none.
pub open spec fn rfind(p: Seq<char>, c: char) -> int
    decreases p.len(),
{
    if p.len() == 0 {
        -1
    } else if p.last() == c {
        p.len() - 1
    } else {
        rfind(p.drop_last(), c)
    }
}

/// What replacing the extension means: everything after the last `/` is the
/// file name; if the file name holds a `.` after its first character, the
/// text from the last such `.` on is the extension and is replaced by `.` and
/// the new extension; a file name without one (or with only a leading `.`)
/// gets `.` and the extension appended. A path whose file name is empty — an
/// empty path, or one ending in `/` — is returned unchanged.
pub open spec fn spec_replace_file_extension(p: Seq<char>, ext: Seq<char>) -> Seq<char> {
    let ns = rfind(p, '/') + 1;
    if ns >= p.len() {
        p
    } else {
        let dot = rfind(p, '.');
        let stem_end = if dot > ns {
            dot
        } else {
            p.len() as int
        };
        p.take(stem_end) + seq!['.'] + ext
    }
}

/// The index of the last occurrence of `c` in `s`, if any.
fn rfind_str(s: &str, c: char) -> (r: Option<usize>)
    ensures
        match r {
            Some(i) => rfind(s@, c) == i as int && i < s@.len(),
            None => rfind(s@, c) == -1,
        },
{
    let n = s.unicode_len();
    let mut i: usize = n;
    assert(s@.take(n as int) =~= s@);
    while i > 0
        invariant
            i <= n,
            n == s@.len(),
            rfind(s@, c) == rfind(s@.take(i as int), c),
        decreases i,
    {
        i = i - 1;
        let ch = s.get_char(i);
        proof {
            let t = s@.take(i + 1);
            assert(t.drop_last() =~= s@.take(i as int));
            assert(t.last() == s@[i as int]);
        }
        if ch == c {
            return Some(i);
        }
    }
    assert(s@.take(0) =~= Seq::<char>::empty());
    None
}

/// Replaces the path's extension, as [`spec_replace_file_extension`] says:
/// the text from the file name's last extension dot on becomes `.` and the
/// given extension; a path without a file name comes back unchanged.
pub fn replace_file_extension(path: &str, extension: &str) -> (r: String)
    ensures
        r@ == spec_replace_file_extension(path@, extension@),
{
    let n = path.unicode_len();
    let slash = rfind_str(path, '/');
    let ns: usize = match slash {
        Some(i) => i + 1,
        None => 0,
    };
    if ns >= n {
        let r = path.to_owned();
        return r;
    }
    let dot = rfind_str(path, '.');
    let stem_end: usize = match dot {
        Some(d) => if d > ns {
            d
        } else {
            n
        },
        None => n,
    };
    let stem = path.substring_char(0, stem_end);
    let mut r = stem.to_owned();
    r.append(".");
    r.append(extension);
    proof {
        reveal_strlit(".");
        assert("."@ =~= seq!['.']);
        assert(r@ =~= spec_replace_file_extension(path@, extension@));
    }
    r
}

} // verus!
