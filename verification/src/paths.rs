//! Unix path text: joining, the last component, the extension, and the
//! entries of a `PATH`-style list.
use vstd::prelude::*;
use vstd::string::*;

use crate::text::{chars_of, string_of};

verus! {

/// The position of the last `c` in `s`, or -1.
pub open spec fn last_index_of(s: Seq<char>, c: char) -> int
    decreases s.len(),
{
    if s.len() == 0 {
        -1
    } else if s.last() == c {
        s.len() - 1
    } else {
        last_index_of(s.drop_last(), c)
    }
}

pub proof fn lemma_last_index_of(s: Seq<char>, c: char)
    ensures
        -1 <= last_index_of(s, c) < s.len(),
        last_index_of(s, c) >= 0 ==> s[last_index_of(s, c)] == c,
        forall|k: int| last_index_of(s, c) < k < s.len() ==> s[k] != c,
    decreases s.len(),
{
    if s.len() > 0 && s.last() != c {
        lemma_last_index_of(s.drop_last(), c);
        let r = last_index_of(s, c);
        assert forall|k: int| r < k < s.len() implies s[k] != c by {
            if k < s.len() - 1 {
                assert(s[k] == s.drop_last()[k]);
            }
        }
    }
}

/// The last component of a Unix path, as `Path::components` yields it:
/// separators are skipped, and so are `.` components.
pub open spec fn last_component(s: Seq<char>) -> Option<Seq<char>>
    decreases s.len(),
{
    if s.len() == 0 {
        None
    } else if s.last() == '/' {
        last_component(s.drop_last())
    } else {
        let k = last_index_of(s, '/') + 1;
        proof {
            lemma_last_index_of(s, '/');
        }
        if s.subrange(k, s.len() as int) == seq!['.'] {
            last_component(s.subrange(0, k))
        } else {
            Some(s.subrange(k, s.len() as int))
        }
    }
}

/// `Path::file_name`: the last component, unless it is `..` or there is none.
pub open spec fn path_file_name(s: Seq<char>) -> Option<Seq<char>> {
    match last_component(s) {
        Some(seg) => if seg == seq!['.', '.'] {
            None
        } else {
            Some(seg)
        },
        None => None,
    }
}

/// `Path::extension`: what follows the last `.` of the file name, when that
/// `.` is not its first character.
pub open spec fn path_extension(s: Seq<char>) -> Option<Seq<char>> {
    match path_file_name(s) {
        Some(name) => {
            let d = last_index_of(name, '.');
            if d <= 0 {
                None
            } else {
                Some(name.subrange(d + 1, name.len() as int))
            }
        },
        None => None,
    }
}

/// `PathBuf::join` on Unix: an absolute `rest` replaces `base`; otherwise a
/// separator goes between them unless `base` is empty or already ends in one.
pub open spec fn path_join(base: Seq<char>, rest: Seq<char>) -> Seq<char> {
    if rest.len() > 0 && rest[0] == '/' {
        rest
    } else if base.len() == 0 || base.last() == '/' {
        base + rest
    } else {
        base + seq!['/'] + rest
    }
}

/// The pieces of `s` between the characters `c` (`std::env::split_paths`
/// with `c` the `:` of Unix): one more piece than there are separators,
/// empty pieces kept.
pub open spec fn split_on(s: Seq<char>, c: char) -> Seq<Seq<char>>
    decreases s.len(),
{
    let k = last_index_of(s, c);
    proof {
        lemma_last_index_of(s, c);
    }
    if k < 0 {
        seq![s]
    } else {
        split_on(s.subrange(0, k), c).push(s.subrange(k + 1, s.len() as int))
    }
}

/// The position, counted from `from`, of the last `c` in `v[from..end]`.
pub fn rfind(v: &Vec<char>, from: usize, end: usize, c: char) -> (r: Option<usize>)
    requires
        from <= end <= v@.len(),
    ensures
        match r {
            Some(k) => last_index_of(v@.subrange(from as int, end as int), c) == k,
            None => last_index_of(v@.subrange(from as int, end as int), c) == -1,
        },
{
    let mut j = end;
    while j > from
        invariant
            from <= j <= end <= v@.len(),
            last_index_of(v@.subrange(from as int, end as int), c) == last_index_of(
                v@.subrange(from as int, j as int),
                c,
            ),
        decreases j,
    {
        let ghost sub = v@.subrange(from as int, j as int);
        assert(sub.last() == v@[j - 1]);
        if v[j - 1] == c {
            return Some(j - 1 - from);
        }
        assert(sub.drop_last() =~= v@.subrange(from as int, j - 1));
        j -= 1;
    }
    None
}

/// The bounds of the last component of `v`, as `last_component` defines it.
fn last_component_bounds(v: &Vec<char>) -> (r: Option<(usize, usize)>)
    ensures
        match r {
            Some((k, e)) => k < e <= v@.len() && last_component(v@) == Some(v@.subrange(k as int, e as int)),
            None => last_component(v@) is None,
        },
{
    let mut end = v.len();
    assert(v@.subrange(0, end as int) =~= v@);
    loop
        invariant
            end <= v@.len(),
            last_component(v@) == last_component(v@.subrange(0, end as int)),
        decreases end,
    {
        let ghost s = v@.subrange(0, end as int);
        if end == 0 {
            return None;
        }
        assert(s.last() == v@[end - 1]);
        if v[end - 1] == '/' {
            assert(s.drop_last() =~= v@.subrange(0, end - 1));
            end -= 1;
        } else {
            let found = rfind(v, 0, end, '/');
            proof {
                lemma_last_index_of(s, '/');
            }
            let k = match found {
                Some(i) => i + 1,
                None => 0,
            };
            assert(s.subrange(k as int, s.len() as int) =~= v@.subrange(k as int, end as int));
            if end - k == 1 && v[k] == '.' {
                assert(v@.subrange(k as int, end as int) =~= seq!['.']);
                assert(s.subrange(0, k as int) =~= v@.subrange(0, k as int));
                end = k;
            } else {
                assert(v@.subrange(k as int, end as int) != seq!['.']) by {
                    if end - k == 1 {
                        assert(v@.subrange(k as int, end as int)[0] == v@[k as int]);
                    }
                }
                return Some((k, end));
            }
        }
    }
}

/// The extension of the file that `path` names (`Path::extension`).
pub fn file_extension(path: &str) -> (r: Option<String>)
    ensures
        match r {
            Some(e) => path_extension(path@) == Some(e@),
            None => path_extension(path@) is None,
        },
{
    let v = chars_of(path);
    match last_component_bounds(&v) {
        None => None,
        Some((k, e)) => {
            let ghost name = v@.subrange(k as int, e as int);
            if e - k == 2 && v[k] == '.' && v[k + 1] == '.' {
                assert(name =~= seq!['.', '.']);
                return None;
            }
            assert(name != seq!['.', '.']) by {
                if e - k == 2 {
                    assert(name[0] == v@[k as int]);
                    assert(name[1] == v@[k + 1]);
                }
            }
            match rfind(&v, k, e, '.') {
                Some(d) => {
                    if d == 0 {
                        None
                    } else {
                        proof {
                            lemma_last_index_of(name, '.');
                        }
                        assert(name.subrange(d + 1, name.len() as int) =~= v@.subrange(
                            k + d + 1,
                            e as int,
                        ));
                        Some(string_of(&v, k + d + 1, e))
                    }
                },
                None => None,
            }
        },
    }
}

/// `base.join(rest)` on Unix.
pub fn join_path(base: &str, rest: &str) -> (r: String)
    ensures
        r@ == path_join(base@, rest@),
{
    let b = chars_of(base);
    let t = chars_of(rest);
    if t.len() > 0 && t[0] == '/' {
        return String::from_str(rest);
    }
    let mut r = String::from_str(base);
    if !(b.len() == 0 || b[b.len() - 1] == '/') {
        r.append("/");
        proof {
            reveal_strlit("/");
        }
    }
    r.append(rest);
    r
}

} // verus!
