use vstd::prelude::*;
use vstd::string::StrSliceExecFns;

verus! {

/// A path with its trailing noise removed: trailing separator runs and
/// trailing `.` segments (the current directory) do not change which file
/// a path names, so `foo/`, `foo//` and `foo/.` all name what `foo`
/// names.  A trailing `..` segment is kept: it names a parent, not a
/// file.
pub open spec fn spec_trim_path(path: Seq<char>) -> Seq<char>
    decreases path.len(),
{
    if path.len() == 0 {
        path
    } else if path.last() == '/' {
        spec_trim_path(path.drop_last())
    } else if path.last() == '.' && (path.len() == 1 || path[path.len() - 2] == '/') {
        spec_trim_path(path.drop_last())
    } else {
        path
    }
}

/// The file name of a path: the last segment once trailing separators and
/// `.` segments are dropped.  Empty when the path names no file at all
/// (it is empty, or all separators and `.` segments).
pub open spec fn spec_file_name(path: Seq<char>) -> Seq<char> {
    let trimmed = spec_trim_path(path);
    match trimmed.index_of_last('/') {
        Some(i) => trimmed.subrange(i + 1, trimmed.len() as int),
        None => trimmed,
    }
}

/// The stem of a path, from which a database label is derived: the file
/// name up to its last `.`.  A leading `.` does not count as marking an
/// extension, so a name that is all extension (such as one naming a
/// hidden file) is its own stem.  There is no stem when the file name is
/// empty or names the parent directory.
pub open spec fn spec_stem(path: Seq<char>) -> Option<Seq<char>> {
    let name = spec_file_name(path);
    if name.len() == 0 || name == seq!['.', '.'] {
        None
    } else {
        match name.index_of_last('.') {
            Some(d) => if d > 0 {
                Some(name.subrange(0, d))
            } else {
                Some(name)
            },
            None => Some(name),
        }
    }
}

/// The index of the last occurrence of `c` in `s`, if any.
fn last_index_of(s: &str, c: char) -> (r: Option<usize>)
    ensures
        match r {
            Some(i) => i < s@.len() && s@.index_of_last(c) == Some(i as int),
            None => s@.index_of_last(c) is None,
        },
{
    let n = s.unicode_len();
    let mut best: Option<usize> = None;
    let mut i: usize = 0;
    while i < n
        invariant
            n == s@.len(),
            i <= n,
            match best {
                Some(b) => b < i && s@[b as int] == c && (forall|j: int|
                    b < j < i ==> s@[j] != c),
                None => forall|j: int| 0 <= j < i ==> s@[j] != c,
            },
        decreases n - i,
    {
        if s.get_char(i) == c {
            best = Some(i);
        }
        i += 1;
    }
    proof {
        s@.index_of_last_ensures(c);
        match best {
            Some(b) => {
                match s@.index_of_last(c) {
                    Some(k) => {
                        assert(s@[k] == c);
                        if k < b {
                            assert(false);
                        }
                        if b < k {
                            assert(false);
                        }
                    },
                    None => {
                        assert(false);
                    },
                }
            },
            None => {
                if s@.index_of_last(c) is Some {
                    assert(false);
                }
            },
        }
    }
    best
}

/// Where the trimmed path ends: the length left once trailing separators
/// and `.` segments are dropped, as [`spec_trim_path`] describes.
fn trimmed_len(path: &str) -> (end: usize)
    ensures
        end <= path@.len(),
        spec_trim_path(path@) == path@.subrange(0, end as int),
{
    let n = path.unicode_len();
    let mut end: usize = n;
    let mut done = false;
    proof {
        assert(path@.subrange(0, n as int) =~= path@);
    }
    while !done
        invariant
            n == path@.len(),
            end <= n,
            spec_trim_path(path@) == spec_trim_path(path@.subrange(0, end as int)),
            done ==> spec_trim_path(path@.subrange(0, end as int)) == path@.subrange(
                0,
                end as int,
            ),
        decreases end + (if done { 0int } else { 1int }),
    {
        if end > 0 && path.get_char(end - 1) == '/' {
            proof {
                assert(path@.subrange(0, end as int).drop_last() =~= path@.subrange(
                    0,
                    end as int - 1,
                ));
            }
            end -= 1;
        } else if end > 0 && path.get_char(end - 1) == '.' && (end == 1 || path.get_char(end - 2)
            == '/') {
            proof {
                assert(path@.subrange(0, end as int).drop_last() =~= path@.subrange(
                    0,
                    end as int - 1,
                ));
            }
            end -= 1;
        } else {
            done = true;
        }
    }
    end
}

/// Extracts the stem of `path`, as [`spec_stem`] describes it.
pub fn stem_of(path: &str) -> (r: Option<String>)
    ensures
        match r {
            Some(stem) => spec_stem(path@) == Some(stem@),
            None => spec_stem(path@) is None,
        },
{
    let end = trimmed_len(path);
    let trimmed = path.substring_char(0, end);
    proof {
        assert(trimmed@ == spec_trim_path(path@));
    }
    let t = trimmed.unicode_len();
    let start: usize = match last_index_of(trimmed, '/') {
        Some(i) => i + 1,
        None => 0,
    };
    let name = trimmed.substring_char(start, t);
    proof {
        assert(name@ =~= spec_file_name(path@));
    }
    let m = name.unicode_len();
    if m == 0 {
        return None;
    }
    if m == 2 && name.get_char(0) == '.' && name.get_char(1) == '.' {
        proof {
            assert(name@ =~= seq!['.', '.']);
        }
        return None;
    }
    proof {
        assert(name@ != seq!['.', '.']) by {
            if name@ == seq!['.', '.'] {
                assert(name@.len() == 2 && name@[0] == '.' && name@[1] == '.');
            }
        }
    }
    let stem = match last_index_of(name, '.') {
        Some(d) if d > 0 => name.substring_char(0, d),
        _ => name,
    };
    Some(stem.to_owned())
}

} // verus!
