//! The file selector's decision rules. A walked entry is pruned when an
//! exclude pattern equals one of its path components, or — when the pattern
//! itself holds a path separator — occurs anywhere in the path; a fixed rule
//! always prunes the version-control metadata directory. A surviving file is
//! picked when its lowercased extension equals the target extension, or an
//! include pattern equals its file name or is a suffix of its path.
//! Explicitly included files are merged in afterwards, deduplicated by
//! canonical path.
use crate::text::{bytes_eq, has_sub, has_sub_at, lower_bytes, match_at, views_of};
use vstd::prelude::*;

verus! {

/// The version-control metadata directory that is always pruned.
pub open spec fn git_dir_name() -> Seq<u8> {
    seq![46u8, 103u8, 105u8, 116u8]
}

/// Patterns holding a path separator match as substrings of the whole path.
pub open spec fn has_separator(p: Seq<u8>) -> bool {
    p.contains(47u8) || p.contains(92u8)
}

/// `c` occupies positions `i ..` of the path with a separator or an end of
/// the path on both sides.
pub open spec fn component_at(path: Seq<u8>, c: Seq<u8>, i: int) -> bool {
    has_sub_at(path, c, i) && (i == 0 || path[i - 1] == 47) && (i + c.len() == path.len() || path[i
        + c.len()] == 47)
}

/// `c` equals one of the path's separator-delimited components.
pub open spec fn is_component_of(path: Seq<u8>, c: Seq<u8>) -> bool {
    c.len() > 0 && !c.contains(47u8) && exists|i: int| component_at(path, c, i)
}

/// One exclude pattern rejects the path.
pub open spec fn excluded_by(path: Seq<u8>, excl: Seq<u8>) -> bool {
    is_component_of(path, excl) || (has_separator(excl) && has_sub(path, excl))
}

/// The walk prunes an entry below the root when it is the version-control
/// directory, or anywhere when some exclude pattern rejects its path.
pub open spec fn entry_excluded_spec(
    path: Seq<u8>,
    file_name: Seq<u8>,
    depth: int,
    excludes: Seq<Seq<u8>>,
) -> bool {
    (depth > 0 && file_name == git_dir_name()) || exists|k: int|
        0 <= k < excludes.len() && excluded_by(path, #[trigger] excludes[k])
}

pub fn contains_byte(v: &Vec<u8>, b: u8) -> (r: bool)
    ensures
        r == v@.contains(b),
{
    let mut i: usize = 0;
    while i < v.len()
        invariant
            i <= v.len(),
            forall|k: int| 0 <= k < i ==> v@[k] != b,
        decreases v.len() - i,
    {
        if v[i] == b {
            return true;
        }
        i += 1;
    }
    false
}

/// Does one exclude pattern reject this path?
pub fn matches_exclusion(path: &Vec<u8>, excl: &Vec<u8>) -> (r: bool)
    ensures
        r == excluded_by(path@, excl@),
{
    let sep = contains_byte(excl, 47) || contains_byte(excl, 92);
    // Component match: only a non-empty pattern without a slash can equal a
    // component.
    if excl.len() > 0 && !contains_byte(excl, 47) && excl.len() <= path.len() {
        let bound = path.len() - excl.len();
        let mut i: usize = 0;
        while i <= bound
            invariant
                excl.len() >= 1,
                excl.len() <= path.len(),
                bound == path.len() - excl.len(),
                i <= bound + 1,
                forall|j: int| 0 <= j < i ==> !component_at(path@, excl@, j),
            decreases bound + 1 - i,
        {
            let ok_left = i == 0 || path[i - 1] == 47;
            let end = i + excl.len();
            let ok_right = end == path.len() || path[end] == 47;
            if ok_left && ok_right && match_at(path, excl, i) {
                proof {
                    assert(component_at(path@, excl@, i as int));
                }
                return true;
            }
            i += 1;
        }
        proof {
            assert(forall|j: int| #[trigger]
                component_at(path@, excl@, j) ==> 0 <= j && j + excl@.len() <= path@.len());
            assert(!is_component_of(path@, excl@));
        }
    } else {
        proof {
            if excl@.len() > 0 && !excl@.contains(47u8) {
                assert(forall|j: int| #[trigger]
                    component_at(path@, excl@, j) ==> j + excl@.len() <= path@.len());
            }
            assert(!is_component_of(path@, excl@));
        }
    }
    if sep {
        crate::text::contains_sub(path, excl)
    } else {
        false
    }
}

/// The walk's pruning decision for one entry.
pub fn is_excluded_entry(
    path: &Vec<u8>,
    file_name: &Vec<u8>,
    depth: usize,
    excludes: &Vec<Vec<u8>>,
) -> (r: bool)
    ensures
        r == entry_excluded_spec(path@, file_name@, depth as int, views_of(excludes@)),
{
    let git = vec![46u8, 103u8, 105u8, 116u8];
    proof {
        assert(git@ =~= git_dir_name());
    }
    if depth > 0 && bytes_eq(file_name, &git) {
        return true;
    }
    let ghost exs = views_of(excludes@);
    let mut k: usize = 0;
    while k < excludes.len()
        invariant
            k <= excludes.len(),
            exs == views_of(excludes@),
            forall|j: int| 0 <= j < k ==> !excluded_by(path@, #[trigger] exs[j]),
        decreases excludes.len() - k,
    {
        if matches_exclusion(path, &excludes[k]) {
            proof {
                assert(excluded_by(path@, exs[k as int]));
            }
            return true;
        }
        proof {
            assert(exs[k as int] == excludes@[k as int]@);
        }
        k += 1;
    }
    false
}

/// Index of the last dot in the name, or -1.
pub open spec fn last_dot_from(name: Seq<u8>, i: int) -> int
    decreases i + 1,
{
    if i < 0 || i >= name.len() {
        -1
    } else if name[i] == 46 {
        i
    } else {
        last_dot_from(name, i - 1)
    }
}

/// The extension of a file name: what follows the last dot, provided that
/// dot is not the leading byte; names without such a dot have none.
pub open spec fn ext_of_name(name: Seq<u8>) -> Option<Seq<u8>> {
    let d = last_dot_from(name, name.len() - 1);
    if d > 0 {
        Option::Some(name.skip(d + 1))
    } else {
        Option::None
    }
}

/// Extracts a file name's extension.
pub fn extension_of(name: &Vec<u8>) -> (r: Option<Vec<u8>>)
    ensures
        match r {
            Option::Some(e) => ext_of_name(name@) == Option::Some(e@),
            Option::None => ext_of_name(name@) is None,
        },
{
    let mut i: usize = name.len();
    while i > 0
        invariant
            i <= name.len(),
            last_dot_from(name@, name@.len() - 1) == last_dot_from(name@, i - 1),
        decreases i,
    {
        if name[i - 1] == 46 {
            proof {
                assert(last_dot_from(name@, i - 1) == i - 1);
            }
            if i - 1 > 0 {
                let e = crate::text::copy_range(name, i, name.len());
                proof {
                    assert(e@ =~= name@.skip(i as int));
                }
                return Option::Some(e);
            }
            return Option::None;
        }
        i -= 1;
    }
    proof {
        assert(last_dot_from(name@, -1) == -1);
    }
    Option::None
}

/// An include pattern matches a file when it equals the file name or is a
/// suffix of the whole path.
pub open spec fn include_matches_spec(path: Seq<u8>, file_name: Seq<u8>, inc: Seq<u8>) -> bool {
    file_name == inc || inc.is_suffix_of(path)
}

pub fn include_matches(path: &Vec<u8>, file_name: &Vec<u8>, inc: &Vec<u8>) -> (r: bool)
    ensures
        r == include_matches_spec(path@, file_name@, inc@),
{
    if bytes_eq(file_name, inc) {
        return true;
    }
    if inc.len() <= path.len() {
        let at = path.len() - inc.len();
        let m = match_at(path, inc, at);
        proof {
            assert(path@.subrange(path@.len() - inc@.len(), path@.len() as int)
                == path@.subrange(at as int, at + inc@.len()));
        }
        m
    } else {
        false
    }
}

/// The selection rule for a walked file: its lowercased extension equals the
/// target, or some include pattern matches it.
pub open spec fn selected_spec(
    path: Seq<u8>,
    file_name: Seq<u8>,
    target_ext: Seq<u8>,
    includes: Seq<Seq<u8>>,
) -> bool {
    (match ext_of_name(file_name) {
        Option::Some(e) => lower_bytes(e) == target_ext,
        Option::None => false,
    }) || exists|k: int|
        0 <= k < includes.len() && include_matches_spec(path, file_name, #[trigger] includes[k])
}

pub fn should_select(
    path: &Vec<u8>,
    file_name: &Vec<u8>,
    target_ext: &Vec<u8>,
    includes: &Vec<Vec<u8>>,
) -> (r: bool)
    ensures
        r == selected_spec(path@, file_name@, target_ext@, views_of(includes@)),
{
    match extension_of(file_name) {
        Option::Some(e) => {
            let low = crate::text::ascii_lowercase(&e);
            if bytes_eq(&low, target_ext) {
                return true;
            }
        },
        Option::None => {},
    }
    let ghost incs = views_of(includes@);
    let mut k: usize = 0;
    while k < includes.len()
        invariant
            k <= includes.len(),
            incs == views_of(includes@),
            forall|j: int|
                0 <= j < k ==> !include_matches_spec(path@, file_name@, #[trigger] incs[j]),
        decreases includes.len() - k,
    {
        if include_matches(path, file_name, &includes[k]) {
            proof {
                assert(include_matches_spec(path@, file_name@, incs[k as int]));
            }
            return true;
        }
        proof {
            assert(incs[k as int] == includes@[k as int]@);
        }
        k += 1;
    }
    false
}

/// Leading dots removed.
pub open spec fn skip_dots(s: Seq<u8>) -> Seq<u8>
    decreases s.len(),
{
    if s.len() > 0 && s[0] == 46 {
        skip_dots(s.drop_first())
    } else {
        s
    }
}

/// The target extension as configured: leading dots removed, lowercased.
pub open spec fn normalized_ext(s: Seq<u8>) -> Seq<u8> {
    lower_bytes(skip_dots(s))
}

proof fn lemma_skip_dots(s: Seq<u8>, i: int)
    requires
        0 <= i <= s.len(),
        forall|k: int| 0 <= k < i ==> s[k] == 46,
        i == s.len() || s[i] != 46,
    ensures
        skip_dots(s) == s.skip(i),
    decreases i,
{
    if i == 0 {
        assert(s.skip(0) =~= s);
    } else {
        assert(s.drop_first().skip(i - 1) =~= s.skip(i));
        lemma_skip_dots(s.drop_first(), i - 1);
    }
}

/// Normalizes the configured target extension.
pub fn normalize_target_ext(s: &Vec<u8>) -> (r: Vec<u8>)
    ensures
        r@ == normalized_ext(s@),
{
    let mut i: usize = 0;
    while i < s.len() && s[i] == 46
        invariant
            i <= s.len(),
            forall|k: int| 0 <= k < i ==> s@[k] == 46,
        decreases s.len() - i,
    {
        i += 1;
    }
    proof {
        lemma_skip_dots(s@, i as int);
    }
    let rest = crate::text::copy_range(s, i, s.len());
    proof {
        assert(rest@ =~= s@.skip(i as int));
    }
    crate::text::ascii_lowercase(&rest)
}

/// How many of the flags are still unset.
pub open spec fn count_false(s: Seq<bool>) -> int
    decreases s.len(),
{
    if s.len() == 0 {
        0
    } else {
        (if s[0] {
            0int
        } else {
            1int
        }) + count_false(s.drop_first())
    }
}

proof fn lemma_count_false_take(s: Seq<bool>, i: int)
    requires
        0 <= i < s.len(),
    ensures
        count_false(s.take(i + 1)) == count_false(s.take(i)) + (if s[i] {
            0int
        } else {
            1int
        }),
    decreases i,
{
    if i == 0 {
        assert(s.take(1).drop_first() =~= s.take(0));
        assert(s.take(1)[0] == s[0]);
    } else {
        assert(s.take(i + 1).drop_first() =~= s.drop_first().take(i));
        assert(s.take(i).drop_first() =~= s.drop_first().take(i - 1));
        lemma_count_false_take(s.drop_first(), i - 1);
    }
}

/// Counts the include patterns whose matched flag never came on: the
/// advisory "patterns not matched" number.
pub fn count_unmatched(flags: &Vec<bool>) -> (r: usize)
    ensures
        r == count_false(flags@),
{
    let mut r: usize = 0;
    let mut i: usize = 0;
    proof {
        assert(flags@.take(0) =~= Seq::<bool>::empty());
    }
    while i < flags.len()
        invariant
            i <= flags.len(),
            r <= i,
            r == count_false(flags@.take(i as int)),
        decreases flags.len() - i,
    {
        proof {
            lemma_count_false_take(flags@, i as int);
        }
        if !flags[i] {
            r += 1;
        }
        i += 1;
    }
    proof {
        assert(flags@.take(flags@.len() as int) =~= flags@);
    }
    r
}

/// No two entries are equal.
pub open spec fn all_distinct(ss: Seq<Seq<u8>>) -> bool {
    forall|i: int, j: int| 0 <= i < j < ss.len() ==> ss[i] != ss[j]
}

/// Is this canonical path already among the selected files' canonical paths?
pub fn contains_bytes(list: &Vec<Vec<u8>>, x: &Vec<u8>) -> (r: bool)
    ensures
        r == views_of(list@).contains(x@),
{
    let ghost vs = views_of(list@);
    let mut i: usize = 0;
    while i < list.len()
        invariant
            i <= list.len(),
            vs == views_of(list@),
            forall|k: int| 0 <= k < i ==> vs[k] != x@,
        decreases list.len() - i,
    {
        if bytes_eq(&list[i], x) {
            proof {
                assert(vs[i as int] == x@);
            }
            return true;
        }
        proof {
            assert(vs[i as int] == list@[i as int]@);
        }
        i += 1;
    }
    proof {
        if vs.contains(x@) {
            let k = choose|k: int| 0 <= k < vs.len() && vs[k] == x@;
            assert(false);
        }
    }
    false
}

/// Merges one explicitly included file: it is appended only when no
/// already-selected file has the same canonical path.
pub fn add_external_include(
    paths: &mut Vec<Vec<u8>>,
    canons: &mut Vec<Vec<u8>>,
    path: Vec<u8>,
    canon: Vec<u8>,
) -> (added: bool)
    requires
        old(paths)@.len() == old(canons)@.len(),
    ensures
        final(paths)@.len() == final(canons)@.len(),
        added == !views_of(old(canons)@).contains(canon@),
        added ==> final(paths)@ == old(paths)@.push(path) && final(canons)@ == old(canons)@.push(
            canon,
        ),
        !added ==> final(paths)@ == old(paths)@ && final(canons)@ == old(canons)@,
{
    if contains_bytes(canons, &canon) {
        false
    } else {
        paths.push(path);
        canons.push(canon);
        true
    }
}

/// Deduplication invariant: when the selected files' canonical paths are
/// pairwise distinct, merging an explicit include keeps them distinct — a
/// file reachable both by extension match and by an explicit include appears
/// exactly once.
pub proof fn lemma_dedup_preserved(canons: Seq<Seq<u8>>, canon: Seq<u8>, added: bool)
    requires
        all_distinct(canons),
        added == !canons.contains(canon),
    ensures
        all_distinct(
            if added {
                canons.push(canon)
            } else {
                canons
            },
        ),
{
    if added {
        let cs = canons.push(canon);
        assert forall|i: int, j: int| 0 <= i < j < cs.len() implies cs[i] != cs[j] by {
            if j == cs.len() - 1 {
                assert(cs[i] == canons[i]);
                if canons[i] == canon {
                    assert(canons.contains(canon));
                }
            }
        }
    }
}

} // verus!
