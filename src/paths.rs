use vstd::prelude::*;
use vstd::string::*;

verus! {

/// The character views of a sequence of strings.
pub open spec fn string_views(v: Seq<String>) -> Seq<Seq<char>> {
    v.map_values(|s: String| s@)
}

/// Scanning `s` left to right: the components completed so far, and the
/// one under way.
pub open spec fn scan_components(s: Seq<char>) -> (Seq<Seq<char>>, Seq<char>)
    decreases s.len(),
{
    if s.len() == 0 {
        (Seq::empty(), Seq::empty())
    } else {
        let prev = scan_components(s.drop_last());
        if s.last() == '/' {
            if prev.1.len() > 0 {
                (prev.0.push(prev.1), Seq::empty())
            } else {
                (prev.0, Seq::empty())
            }
        } else {
            (prev.0, prev.1.push(s.last()))
        }
    }
}

/// The non-empty `/`-separated components of a path.
pub open spec fn components(s: Seq<char>) -> Seq<Seq<char>> {
    let scan = scan_components(s);
    if scan.1.len() > 0 {
        scan.0.push(scan.1)
    } else {
        scan.0
    }
}

pub open spec fn is_absolute(s: Seq<char>) -> bool {
    s.len() > 0 && s[0] == '/'
}

/// Components joined with single `/` separators.
pub open spec fn join(cs: Seq<Seq<char>>) -> Seq<char>
    decreases cs.len(),
{
    if cs.len() == 0 {
        Seq::empty()
    } else if cs.len() == 1 {
        cs[0]
    } else {
        join(cs.drop_last()) + seq!['/'] + cs.last()
    }
}

/// `s` with a `/` appended unless it already ends with one.
pub open spec fn with_trailing_slash(s: Seq<char>) -> Seq<char> {
    if s.len() > 0 && s.last() == '/' {
        s
    } else {
        s.push('/')
    }
}

/// Whether the path's trailing components are those of `suffix`; an
/// absolute suffix must match the whole of an absolute path.
pub open spec fn ends_with_path(path: Seq<char>, suffix: Seq<char>) -> bool {
    let pc = components(path);
    let sc = components(suffix);
    if is_absolute(suffix) {
        is_absolute(path) && pc == sc
    } else {
        0 < sc.len() <= pc.len() && pc.skip(pc.len() - sc.len()) == sc
    }
}

/// How many trailing components of `path` name the dataset: the last one,
/// and the one before it too when the path ends with `suffix`.
pub open spec fn id_depth(path: Seq<char>, suffix: Seq<char>) -> nat {
    if ends_with_path(path, suffix) {
        2
    } else {
        1
    }
}

/// Whether `path` has enough components to split off a dataset identifier.
pub open spec fn splittable(path: Seq<char>, suffix: Seq<char>) -> bool {
    components(path).len() >= id_depth(path, suffix)
}

/// The storage prefix of a dataset directory: the path without its
/// identifier components (`/` for an absolute path reduced to its root).
pub open spec fn storage_prefix(path: Seq<char>, suffix: Seq<char>) -> Seq<char> {
    let pc = components(path);
    let kept = join(pc.take(pc.len() - id_depth(path, suffix)));
    if is_absolute(path) {
        seq!['/'] + kept
    } else {
        kept
    }
}

/// The dataset identifier of a dataset directory: its last component, or
/// its last two when the path ends with `suffix`, relative to the prefix.
pub open spec fn dataset_id(path: Seq<char>, suffix: Seq<char>) -> Seq<char> {
    let pc = components(path);
    join(pc.skip(pc.len() - id_depth(path, suffix)))
}

/// Splits a path into its non-empty `/`-separated components.
pub fn path_components(s: &str) -> (r: Vec<String>)
    ensures
        string_views(r@) == components(s@),
{
    let n = s.unicode_len();
    let mut out: Vec<String> = Vec::new();
    let mut start: usize = 0;
    let mut i: usize = 0;
    while i < n
        invariant
            start <= i <= n,
            n == s@.len(),
            scan_components(s@.subrange(0, i as int)).0 == string_views(out@),
            scan_components(s@.subrange(0, i as int)).1 == s@.subrange(start as int, i as int),
        decreases n - i,
    {
        let ch = s.get_char(i);
        proof {
            assert(s@.subrange(0, i + 1).drop_last() =~= s@.subrange(0, i as int));
            assert(s@.subrange(0, i + 1).last() == ch);
        }
        if ch == '/' {
            if start < i {
                let part = s.substring_char(start, i);
                out.push(part.to_owned());
                proof {
                    assert(string_views(out@) =~= string_views(out@.drop_last()).push(part@));
                }
            }
            start = i + 1;
            proof {
                assert(s@.subrange(start as int, i + 1) =~= Seq::<char>::empty());
            }
        } else {
            assert(s@.subrange(start as int, i + 1) =~= s@.subrange(start as int, i as int).push(ch));
        }
        i = i + 1;
    }
    proof {
        assert(s@.subrange(0, n as int) =~= s@);
    }
    if start < n {
        let part = s.substring_char(start, n);
        out.push(part.to_owned());
        proof {
            assert(string_views(out@) =~= string_views(out@.drop_last()).push(part@));
        }
    }
    out
}

/// Joins the components `cs[lo..hi]` with `/` separators.
pub fn join_range(cs: &Vec<String>, lo: usize, hi: usize) -> (r: String)
    requires
        lo <= hi <= cs@.len(),
    ensures
        r@ == join(string_views(cs@).subrange(lo as int, hi as int)),
{
    let mut out = String::new();
    let mut j: usize = lo;
    let ghost views = string_views(cs@);
    proof {
        assert(views.subrange(lo as int, lo as int) =~= Seq::<Seq<char>>::empty());
    }
    while j < hi
        invariant
            lo <= j <= hi <= cs@.len(),
            views == string_views(cs@),
            out@ == join(views.subrange(lo as int, j as int)),
        decreases hi - j,
    {
        let ghost before = out@;
        proof {
            assert(views.subrange(lo as int, j + 1).drop_last() =~= views.subrange(lo as int, j as int));
            assert(views[j as int] == cs@[j as int]@);
        }
        if j > lo {
            out.append("/");
            proof {
                reveal_strlit("/");
            }
        }
        out.append(cs[j].as_str());
        proof {
            if j == lo {
                assert(views.subrange(lo as int, j + 1) =~= seq![views[j as int]]);
                assert(out@ =~= views[j as int]);
            } else {
                assert(out@ =~= before + seq!['/'] + views[j as int]);
            }
        }
        j = j + 1;
    }
    out
}

/// `s` with a `/` appended unless it already ends with one.
pub fn ensure_trailing_slash(s: String) -> (r: String)
    ensures
        r@ == with_trailing_slash(s@),
{
    let n = s.as_str().unicode_len();
    if n > 0 && s.as_str().get_char(n - 1) == '/' {
        s
    } else {
        let mut r = s;
        r.append("/");
        proof {
            reveal_strlit("/");
            assert(r@ =~= s@.push('/'));
        }
        r
    }
}

fn same_components(a: &Vec<String>, a_from: usize, b: &Vec<String>) -> (r: bool)
    requires
        a_from <= a@.len(),
        a@.len() - a_from == b@.len(),
    ensures
        r == (string_views(a@).skip(a_from as int) == string_views(b@)),
{
    let ghost av = string_views(a@).skip(a_from as int);
    let ghost bv = string_views(b@);
    let a_len = a.len();
    let mut j: usize = 0;
    while j < b.len()
        invariant
            a_len == a@.len(),
            j <= b@.len(),
            a_from <= a@.len(),
            a@.len() - a_from == b@.len(),
            a_from + b@.len() == a@.len(),
            av == string_views(a@).skip(a_from as int),
            bv == string_views(b@),
            forall|t: int| 0 <= t < j ==> av[t] == bv[t],
        decreases b@.len() - j,
    {
        if a[a_from + j] != b[j] {
            proof {
                assert(av[j as int] == a@[a_from + j]@);
                assert(bv[j as int] == b@[j as int]@);
            }
            return false;
        }
        proof {
            assert(av[j as int] == a@[a_from + j]@);
            assert(bv[j as int] == b@[j as int]@);
        }
        j = j + 1;
    }
    assert(av =~= bv);
    true
}

fn starts_with_slash(s: &str) -> (r: bool)
    ensures
        r == is_absolute(s@),
{
    let n = s.unicode_len();
    n > 0 && s.get_char(0) == '/'
}

/// Whether the components `pc` of `path` end with the components `sc` of
/// `suffix`.
fn path_ends_with(path: &str, pc: &Vec<String>, suffix: &str, sc: &Vec<String>) -> (r: bool)
    requires
        string_views(pc@) == components(path@),
        string_views(sc@) == components(suffix@),
    ensures
        r == ends_with_path(path@, suffix@),
{
    if starts_with_slash(suffix) {
        if !starts_with_slash(path) || pc.len() != sc.len() {
            proof {
                if pc.len() != sc.len() {
                    assert(string_views(pc@).len() != string_views(sc@).len());
                }
            }
            false
        } else {
            let r = same_components(pc, 0, sc);
            proof {
                assert(string_views(pc@).skip(0) =~= string_views(pc@));
            }
            r
        }
    } else if sc.len() == 0 || sc.len() > pc.len() {
        false
    } else {
        same_components(pc, pc.len() - sc.len(), sc)
    }
}

/// Splits a dataset directory into its storage prefix and dataset
/// identifier; none when the path is too short to hold an identifier.
pub fn split_dataset_path(path: &str, suffix: &str) -> (r: Option<(String, String)>)
    ensures
        r is Some <==> splittable(path@, suffix@),
        r matches Some(p) ==> p.0@ == storage_prefix(path@, suffix@) && p.1@ == dataset_id(
            path@,
            suffix@,
        ),
{
    let pc = path_components(path);
    let sc = path_components(suffix);
    let depth: usize = if path_ends_with(path, &pc, suffix, &sc) {
        2
    } else {
        1
    };
    if pc.len() < depth {
        return None;
    }
    let k = pc.len() - depth;
    let kept = join_range(&pc, 0, k);
    let id = join_range(&pc, k, pc.len());
    proof {
        let v = string_views(pc@);
        assert(v.subrange(0, k as int) =~= v.take(k as int));
        assert(v.subrange(k as int, pc@.len() as int) =~= v.skip(k as int));
    }
    let prefix = if starts_with_slash(path) {
        let mut p = String::from_str("/");
        p.append(kept.as_str());
        proof {
            reveal_strlit("/");
        }
        p
    } else {
        kept
    };
    Some((prefix, id))
}

} // verus!
