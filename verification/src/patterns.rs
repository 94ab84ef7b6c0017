//! The pattern resolver. Include and exclude patterns may use one brace
//! group per pass, `prefix{a, b, c}suffix`, which expands to one pattern per
//! comma-separated item (items trimmed of surrounding whitespace); expansion
//! repeats on the produced patterns until none holds a group, and the final
//! list is deduplicated and sorted for reproducible output. A pattern with
//! unbalanced or absent braces passes through unchanged. Pattern files
//! contribute one pattern per line, skipping blank lines and `#` comments.
use crate::text::{
    append_bytes, copy_bytes, copy_range, first_nl, insert_unique_sorted, lemma_first_nl,
    lemma_first_nl_shift, lemma_sorted_unique_eq, lemma_trim_len, strictly_sorted, trim_bytes,
    trim_spec, views_of,
};
use vstd::prelude::*;

verus! {

/// Index of the first brace (`{` or `}`) at or after `i`, or the length.
pub open spec fn first_brace(p: Seq<u8>, i: int) -> int
    decreases p.len() - i,
{
    if i < 0 || i >= p.len() {
        p.len() as int
    } else if p[i] == 123 || p[i] == 125 {
        i
    } else {
        first_brace(p, i + 1)
    }
}

pub proof fn lemma_first_brace(p: Seq<u8>, i: int)
    requires
        0 <= i <= p.len(),
    ensures
        i <= first_brace(p, i) <= p.len(),
        first_brace(p, i) < p.len() ==> (p[first_brace(p, i)] == 123 || p[first_brace(p, i)]
            == 125),
        forall|k: int| i <= k < first_brace(p, i) ==> p[k] != 123 && p[k] != 125,
    decreases p.len() - i,
{
    if i < p.len() && p[i] != 123 && p[i] != 125 {
        lemma_first_brace(p, i + 1);
    }
}

/// A well-formed brace group opens at `o`: a `{`, at least one brace-free
/// byte, then the next brace, which must be a `}`.
pub open spec fn group_at(p: Seq<u8>, o: int) -> bool {
    0 <= o < p.len() && p[o] == 123 && first_brace(p, o + 1) < p.len() && p[first_brace(p, o + 1)]
        == 125 && first_brace(p, o + 1) > o + 1
}

/// Position of the first well-formed group opener at or after `i`, or -1.
pub open spec fn group_open(p: Seq<u8>, i: int) -> int
    decreases p.len() - i,
{
    if i < 0 || i >= p.len() {
        -1
    } else if group_at(p, i) {
        i
    } else {
        group_open(p, i + 1)
    }
}

pub proof fn lemma_group_open(p: Seq<u8>, i: int)
    requires
        0 <= i,
    ensures
        group_open(p, i) == -1 ==> forall|j: int| i <= j ==> !group_at(p, j),
        group_open(p, i) != -1 ==> i <= group_open(p, i) < p.len() && group_at(p, group_open(p, i))
            && forall|j: int| i <= j < group_open(p, i) ==> !group_at(p, j),
    decreases p.len() - i,
{
    if i >= p.len() {
        assert(forall|j: int| i <= j ==> !group_at(p, j));
    } else if !group_at(p, i) {
        lemma_group_open(p, i + 1);
    }
}

/// The pattern holds a well-formed brace group.
pub open spec fn has_group(p: Seq<u8>) -> bool {
    group_open(p, 0) != -1
}

/// Index of the first comma at or after `i`, or the length.
pub open spec fn first_comma(s: Seq<u8>, i: int) -> int
    decreases s.len() - i,
{
    if i < 0 || i >= s.len() {
        s.len() as int
    } else if s[i] == 44 {
        i
    } else {
        first_comma(s, i + 1)
    }
}

pub proof fn lemma_first_comma(s: Seq<u8>, i: int)
    requires
        0 <= i <= s.len(),
    ensures
        i <= first_comma(s, i) <= s.len(),
        first_comma(s, i) < s.len() ==> s[first_comma(s, i)] == 44,
        forall|k: int| i <= k < first_comma(s, i) ==> s[k] != 44,
    decreases s.len() - i,
{
    if i < s.len() && s[i] != 44 {
        lemma_first_comma(s, i + 1);
    }
}

/// The comma-separated pieces of `s` from position `i` on; an empty string
/// yields one empty piece, as splitting does.
pub open spec fn split_commas_from(s: Seq<u8>, i: int) -> Seq<Seq<u8>>
    decreases s.len() - i,
    via split_commas_from_dec
{
    if i < 0 || i > s.len() {
        Seq::empty()
    } else {
        let c = first_comma(s, i);
        if c >= s.len() {
            seq![s.subrange(i, s.len() as int)]
        } else {
            seq![s.subrange(i, c)] + split_commas_from(s, c + 1)
        }
    }
}

#[via_fn]
proof fn split_commas_from_dec(s: Seq<u8>, i: int) {
    if 0 <= i <= s.len() {
        lemma_first_comma(s, i);
    }
}

pub open spec fn split_commas(s: Seq<u8>) -> Seq<Seq<u8>> {
    split_commas_from(s, 0)
}

/// The group's items: its content split at commas, each piece trimmed.
pub open spec fn trimmed_items(s: Seq<u8>) -> Seq<Seq<u8>> {
    split_commas(s).map_values(|it: Seq<u8>| trim_spec(it))
}

proof fn lemma_split_piece_len(s: Seq<u8>, i: int, k: int)
    requires
        0 <= i <= s.len(),
        0 <= k < split_commas_from(s, i).len(),
    ensures
        split_commas_from(s, i)[k].len() <= s.len() - i,
    decreases s.len() - i,
{
    lemma_first_comma(s, i);
    let c = first_comma(s, i);
    if c < s.len() && k > 0 {
        lemma_split_piece_len(s, c + 1, k - 1);
    }
}

/// The content between the braces of the first group of `p`.
pub open spec fn content_of(p: Seq<u8>) -> Seq<u8> {
    p.subrange(group_open(p, 0) + 1, first_brace(p, group_open(p, 0) + 1))
}

/// How many patterns the first group of `p` expands into.
pub open spec fn child_count(p: Seq<u8>) -> int {
    trimmed_items(content_of(p)).len() as int
}

/// The pattern obtained by replacing the first group of `p` with its `k`-th
/// trimmed item.
pub open spec fn child_pattern(p: Seq<u8>, k: int) -> Seq<u8> {
    p.subrange(0, group_open(p, 0)) + trimmed_items(content_of(p))[k] + p.skip(
        first_brace(p, group_open(p, 0) + 1) + 1,
    )
}

pub proof fn lemma_child_shorter(p: Seq<u8>, k: int)
    requires
        has_group(p),
        0 <= k < child_count(p),
    ensures
        child_pattern(p, k).len() < p.len(),
{
    lemma_group_open(p, 0);
    let o = group_open(p, 0);
    lemma_first_brace(p, o + 1);
    let c = first_brace(p, o + 1);
    let content = content_of(p);
    lemma_split_piece_len(content, 0, k);
    lemma_trim_len(split_commas(content)[k]);
}

/// The full expansion relation: `q` is one of the patterns that repeated
/// brace expansion of `p` produces. A pattern without a group expands only
/// to itself.
pub open spec fn expands_to(p: Seq<u8>, q: Seq<u8>) -> bool
    decreases p.len(), 1int, 0int,
{
    if !has_group(p) {
        q == p
    } else {
        expands_item(p, 0, q)
    }
}

/// Some item with index at least `k` of the first group of `p` leads to `q`.
pub open spec fn expands_item(p: Seq<u8>, k: int, q: Seq<u8>) -> bool
    decreases p.len(), 0int, child_count(p) - k,
    via expands_item_dec
{
    if !has_group(p) || k < 0 || k >= child_count(p) {
        false
    } else {
        expands_to(child_pattern(p, k), q) || expands_item(p, k + 1, q)
    }
}

#[via_fn]
proof fn expands_item_dec(p: Seq<u8>, k: int, q: Seq<u8>) {
    if has_group(p) && 0 <= k < child_count(p) {
        lemma_child_shorter(p, k);
    }
}

/// `q` arises from expanding some pattern in the list `ps`.
pub open spec fn expansion_of(ps: Seq<Seq<u8>>, q: Seq<u8>) -> bool {
    exists|k: int| 0 <= k < ps.len() && expands_to(ps[k], q)
}

proof fn lemma_expands_item_iff(p: Seq<u8>, k: int, q: Seq<u8>)
    requires
        has_group(p),
        0 <= k <= child_count(p),
    ensures
        expands_item(p, k, q) <==> exists|j: int|
            k <= j < child_count(p) && expands_to(child_pattern(p, j), q),
    decreases child_count(p) - k,
{
    if k < child_count(p) {
        lemma_expands_item_iff(p, k + 1, q);
        if expands_to(child_pattern(p, k), q) {
            assert(k <= k < child_count(p) && expands_to(child_pattern(p, k), q));
        }
    }
}

/// Everything a pattern expands to is itself free of brace groups, so a
/// second expansion pass can change nothing.
pub proof fn lemma_expanded_no_group(p: Seq<u8>, q: Seq<u8>)
    requires
        expands_to(p, q),
    ensures
        !has_group(q),
    decreases p.len(), 1int, 0int,
{
    if has_group(p) {
        lemma_expanded_no_group_item(p, 0, q);
    }
}

proof fn lemma_expanded_no_group_item(p: Seq<u8>, k: int, q: Seq<u8>)
    requires
        expands_item(p, k, q),
    ensures
        !has_group(q),
    decreases p.len(), 0int, child_count(p) - k,
{
    if expands_to(child_pattern(p, k), q) {
        lemma_child_shorter(p, k);
        lemma_expanded_no_group(child_pattern(p, k), q);
    } else {
        lemma_expanded_no_group_item(p, k + 1, q);
    }
}

/// Expansion is idempotent: a strictly sorted list of group-free patterns is
/// its own expansion, so any list meeting the expander's contract over it is
/// that list again.
pub proof fn lemma_expansion_fixed_point(a: Seq<Seq<u8>>, b: Seq<Seq<u8>>)
    requires
        strictly_sorted(a),
        forall|i: int| 0 <= i < a.len() ==> !has_group(#[trigger] a[i]),
        strictly_sorted(b),
        forall|q: Seq<u8>| #[trigger] b.contains(q) <==> expansion_of(a, q),
    ensures
        b == a,
{
    assert forall|q: Seq<u8>| #[trigger] a.contains(q) implies b.contains(q) by {
        let i = choose|i: int| 0 <= i < a.len() && a[i] == q;
        assert(!has_group(a[i]));
        assert(expands_to(a[i], q));
        assert(expansion_of(a, q));
    }
    assert forall|q: Seq<u8>| #[trigger] b.contains(q) implies a.contains(q) by {
        let k = choose|k: int| 0 <= k < a.len() && expands_to(a[k], q);
        assert(!has_group(a[k]));
        assert(q == a[k]);
    }
    lemma_sorted_unique_eq(b, a);
}

/// The patterns one pattern file contributes: one per line, trimmed,
/// skipping blank lines and lines that open with the `#` comment marker.
pub open spec fn pattern_lines_spec(s: Seq<u8>) -> Seq<Seq<u8>>
    decreases s.len(),
    via pattern_lines_spec_dec
{
    if s.len() == 0 {
        Seq::empty()
    } else {
        let e = first_nl(s, 0);
        let cut = if e < s.len() {
            e + 1
        } else {
            e
        };
        let t = trim_spec(s.subrange(0, e));
        (if t.len() > 0 && t[0] != 35 {
            seq![t]
        } else {
            Seq::<Seq<u8>>::empty()
        }) + pattern_lines_spec(s.skip(cut))
    }
}

#[via_fn]
proof fn pattern_lines_spec_dec(s: Seq<u8>) {
    if s.len() > 0 {
        lemma_first_nl(s, 0);
    }
}

/// Reads patterns out of a pattern file's text.
pub fn pattern_lines(text: &Vec<u8>) -> (r: Vec<Vec<u8>>)
    ensures
        views_of(r@) == pattern_lines_spec(text@),
{
    let mut r: Vec<Vec<u8>> = Vec::new();
    let mut i: usize = 0;
    proof {
        assert(text@.skip(0) =~= text@);
        assert(views_of(r@) =~= Seq::<Seq<u8>>::empty());
        assert(views_of(r@) + pattern_lines_spec(text@) =~= pattern_lines_spec(text@));
    }
    while i < text.len()
        invariant
            i <= text.len(),
            views_of(r@) + pattern_lines_spec(text@.skip(i as int)) == pattern_lines_spec(text@),
        decreases text.len() - i,
    {
        let ghost pre = text@.skip(i as int);
        let ghost r0 = views_of(r@);
        let mut e: usize = i;
        while e < text.len() && text[e] != 10
            invariant
                i <= e <= text.len(),
                first_nl(text@, i as int) == first_nl(text@, e as int),
            decreases text.len() - e,
        {
            e += 1;
        }
        proof {
            lemma_first_nl(text@, i as int);
            lemma_first_nl_shift(text@, i as int, i as int);
            assert(first_nl(text@, i as int) == e);
            assert(first_nl(pre, 0) == e - i);
            assert(pre.subrange(0, e - i) =~= text@.subrange(i as int, e as int));
        }
        let line = copy_range(text, i, e);
        let t = trim_bytes(&line);
        if t.len() > 0 && t[0] != 35 {
            r.push(t);
            proof {
                assert(views_of(r@) =~= r0.push(trim_spec(pre.subrange(0, e - i))));
            }
        }
        let cut = if e < text.len() {
            e + 1
        } else {
            e
        };
        proof {
            assert(pre.skip(cut - i) =~= text@.skip(cut as int));
            let t_spec = trim_spec(pre.subrange(0, e - i));
            if t_spec.len() > 0 && t_spec[0] != 35 {
                assert(views_of(r@) + pattern_lines_spec(text@.skip(cut as int)) =~= r0 + (
                seq![t_spec] + pattern_lines_spec(pre.skip(cut - i))));
                assert(r0 + (seq![t_spec] + pattern_lines_spec(pre.skip(cut - i))) =~= r0
                    + pattern_lines_spec(pre));
            } else {
                assert(views_of(r@) + pattern_lines_spec(text@.skip(cut as int)) =~= r0 + (
                Seq::<Seq<u8>>::empty() + pattern_lines_spec(pre.skip(cut - i))));
                assert(r0 + (Seq::<Seq<u8>>::empty() + pattern_lines_spec(pre.skip(cut - i))) =~= r0
                    + pattern_lines_spec(pre));
            }
        }
        i = cut;
    }
    proof {
        assert(text@.skip(i as int) =~= Seq::<u8>::empty());
        assert(views_of(r@) + pattern_lines_spec(Seq::<u8>::empty()) =~= views_of(r@));
    }
    r
}

fn find_group(p: &Vec<u8>) -> (r: Option<(usize, usize)>)
    ensures
        match r {
            Option::Some(oc) => group_open(p@, 0) == oc.0 && first_brace(p@, oc.0 + 1) == oc.1,
            Option::None => group_open(p@, 0) == -1,
        },
{
    let mut i: usize = 0;
    while i < p.len()
        invariant
            i <= p.len(),
            group_open(p@, 0) == group_open(p@, i as int),
        decreases p.len() - i,
    {
        if p[i] == 123 {
            let mut j: usize = i + 1;
            while j < p.len() && p[j] != 123 && p[j] != 125
                invariant
                    i + 1 <= j <= p.len(),
                    first_brace(p@, i + 1) == first_brace(p@, j as int),
                decreases p.len() - j,
            {
                j += 1;
            }
            proof {
                assert(first_brace(p@, i + 1) == j);
            }
            if j < p.len() && p[j] == 125 && j > i + 1 {
                proof {
                    assert(group_at(p@, i as int));
                }
                return Option::Some((i, j));
            }
            proof {
                assert(!group_at(p@, i as int));
            }
        } else {
            proof {
                assert(!group_at(p@, i as int));
            }
        }
        i += 1;
    }
    Option::None
}

/// Splits a group's content at commas and trims each item.
fn split_trimmed(content: &Vec<u8>) -> (r: Vec<Vec<u8>>)
    ensures
        views_of(r@) == trimmed_items(content@),
{
    let mut r: Vec<Vec<u8>> = Vec::new();
    let mut pos: usize = 0;
    let mut done: bool = false;
    proof {
        assert(views_of(r@) =~= Seq::<Seq<u8>>::empty());
    }
    while !done
        invariant
            pos <= content.len(),
            !done ==> trimmed_items(content@) == views_of(r@) + split_commas_from(
                content@,
                pos as int,
            ).map_values(|it: Seq<u8>| trim_spec(it)),
            done ==> trimmed_items(content@) == views_of(r@),
        decreases (if done {
            0int
        } else {
            content.len() - pos + 1
        }),
    {
        let mut c: usize = pos;
        while c < content.len() && content[c] != 44
            invariant
                pos <= c <= content.len(),
                first_comma(content@, pos as int) == first_comma(content@, c as int),
            decreases content.len() - c,
        {
            c += 1;
        }
        proof {
            assert(first_comma(content@, pos as int) == c);
        }
        let piece = copy_range(content, pos, c);
        let item = trim_bytes(&piece);
        let ghost r0 = views_of(r@);
        r.push(item);
        proof {
            assert(views_of(r@) =~= r0.push(trim_spec(content@.subrange(pos as int, c as int))));
            let rest = split_commas_from(content@, pos as int);
            let f = |it: Seq<u8>| trim_spec(it);
            if c < content@.len() {
                assert(rest == seq![content@.subrange(pos as int, c as int)]
                    + split_commas_from(content@, c + 1));
                assert(rest.map_values(f) =~= seq![f(content@.subrange(pos as int, c as int))]
                    + split_commas_from(content@, c + 1).map_values(f));
                assert(views_of(r@) + split_commas_from(content@, c + 1).map_values(f)
                    =~= r0 + rest.map_values(f));
            } else {
                assert(content@.subrange(pos as int, content@.len() as int)
                    == content@.subrange(pos as int, c as int));
                assert(rest =~= seq![content@.subrange(pos as int, c as int)]);
                assert(rest.map_values(f) =~= seq![f(content@.subrange(pos as int, c as int))]);
                assert(views_of(r@) =~= r0 + rest.map_values(f));
            }
        }
        if c < content.len() {
            pos = c + 1;
        } else {
            done = true;
        }
    }
    r
}

/// Fully expands one pattern: the returned list holds exactly the patterns
/// that `p` expands to.
pub fn expand_one(p: &Vec<u8>) -> (r: Vec<Vec<u8>>)
    ensures
        forall|q: Seq<u8>| #[trigger] views_of(r@).contains(q) <==> expands_to(p@, q),
    decreases p@.len(),
{
    match find_group(p) {
        Option::None => {
            let mut r: Vec<Vec<u8>> = Vec::new();
            r.push(copy_bytes(p));
            proof {
                assert(views_of(r@) =~= seq![p@]);
                assert(!has_group(p@));
                assert forall|q: Seq<u8>| #[trigger] views_of(r@).contains(q) <==> expands_to(
                    p@,
                    q,
                ) by {
                    if views_of(r@).contains(q) {
                        let i = choose|i: int|
                            0 <= i < views_of(r@).len() && views_of(r@)[i] == q;
                        assert(q == p@);
                    }
                    if expands_to(p@, q) {
                        assert(views_of(r@)[0] == q);
                    }
                }
            }
            r
        },
        Option::Some((o, c)) => {
            proof {
                lemma_group_open(p@, 0);
                lemma_first_brace(p@, o + 1);
            }
            let content = copy_range(p, o + 1, c);
            proof {
                assert(content@ == content_of(p@));
            }
            let items = split_trimmed(&content);
            let n = p.len();
            proof {
                assert(c < n);
            }
            let suffix = copy_range(p, c + 1, n);
            let mut r: Vec<Vec<u8>> = Vec::new();
            let mut k: usize = 0;
            proof {
                assert(views_of(r@) =~= Seq::<Seq<u8>>::empty());
            }
            while k < items.len()
                invariant
                    k <= items.len(),
                    views_of(items@) == trimmed_items(content_of(p@)),
                    o == group_open(p@, 0),
                    c == first_brace(p@, o + 1),
                    o + 1 < c < p@.len(),
                    group_at(p@, o as int),
                    suffix@ == p@.skip(c + 1),
                    forall|q: Seq<u8>| #[trigger]
                        views_of(r@).contains(q) <==> exists|j: int|
                            0 <= j < k && expands_to(child_pattern(p@, j), q),
                decreases items.len() - k,
            {
                let mut child = copy_range(p, 0, o);
                append_bytes(&mut child, &items[k]);
                append_bytes(&mut child, &suffix);
                proof {
                    assert(views_of(items@)[k as int] == items@[k as int]@);
                    assert(child@ =~= child_pattern(p@, k as int));
                    lemma_child_shorter(p@, k as int);
                }
                let sub = expand_one(&child);
                let mut t: usize = 0;
                while t < sub.len()
                    invariant
                        t <= sub.len(),
                        k < items.len(),
                        child@ == child_pattern(p@, k as int),
                        forall|q: Seq<u8>| #[trigger]
                            views_of(sub@).contains(q) <==> expands_to(child@, q),
                        forall|q: Seq<u8>| #[trigger]
                            views_of(r@).contains(q) <==> (exists|j: int|
                                0 <= j < k && expands_to(child_pattern(p@, j), q)) || (exists|
                                u: int,
                            |
                                0 <= u < t && views_of(sub@)[u] == q),
                    decreases sub.len() - t,
                {
                    let ghost r0 = views_of(r@);
                    r.push(copy_bytes(&sub[t]));
                    proof {
                        assert(views_of(r@) =~= r0.push(sub@[t as int]@));
                        assert(views_of(sub@)[t as int] == sub@[t as int]@);
                        assert forall|q: Seq<u8>| #[trigger]
                            views_of(r@).contains(q) implies ((exists|j: int|
                            0 <= j < k && expands_to(child_pattern(p@, j), q)) || (exists|u: int|
                            0 <= u < t + 1 && views_of(sub@)[u] == q)) by {
                            let i = choose|i: int|
                                0 <= i < views_of(r@).len() && views_of(r@)[i] == q;
                            if i < r0.len() {
                                assert(r0[i] == q);
                                assert(r0.contains(q));
                            } else {
                                assert(views_of(sub@)[t as int] == q);
                            }
                        }
                        assert forall|q: Seq<u8>|
                            ((exists|j: int| 0 <= j < k && expands_to(child_pattern(p@, j), q))
                                || (exists|u: int|
                                0 <= u < t + 1 && views_of(sub@)[u] == q)) implies #[trigger]
                        views_of(r@).contains(q) by {
                            if exists|u: int| 0 <= u < t + 1 && views_of(sub@)[u] == q {
                                let u = choose|u: int| 0 <= u < t + 1 && views_of(sub@)[u] == q;
                                if u < t {
                                    assert(r0.contains(q));
                                    let i = choose|i: int| 0 <= i < r0.len() && r0[i] == q;
                                    assert(views_of(r@)[i] == q);
                                } else {
                                    assert(views_of(r@)[r0.len() as int] == q);
                                }
                            } else {
                                assert(r0.contains(q));
                                let i = choose|i: int| 0 <= i < r0.len() && r0[i] == q;
                                assert(views_of(r@)[i] == q);
                            }
                        }
                    }
                    t += 1;
                }
                proof {
                    assert forall|q: Seq<u8>| #[trigger]
                        views_of(r@).contains(q) <==> (exists|j: int|
                            0 <= j < k + 1 && expands_to(child_pattern(p@, j), q)) by {
                        if exists|u: int| 0 <= u < sub@.len() && views_of(sub@)[u] == q {
                            assert(views_of(sub@).contains(q));
                        }
                        if expands_to(child_pattern(p@, k as int), q) {
                            assert(views_of(sub@).contains(q));
                            let u = choose|u: int|
                                0 <= u < views_of(sub@).len() && views_of(sub@)[u] == q;
                            assert(0 <= u < sub@.len() && views_of(sub@)[u] == q);
                        }
                    }
                }
                k += 1;
            }
            proof {
                assert(has_group(p@));
                assert(child_count(p@) == items@.len());
                assert forall|q: Seq<u8>| #[trigger] views_of(r@).contains(q) <==> expands_to(
                    p@,
                    q,
                ) by {
                    lemma_expands_item_iff(p@, 0, q);
                }
            }
            r
        },
    }
}

/// Expands every pattern in the list, then deduplicates and sorts the
/// result: the returned list is the strictly sorted enumeration of
/// everything the given patterns expand to.
pub fn expand_brace_patterns(patterns: Vec<Vec<u8>>) -> (r: Vec<Vec<u8>>)
    ensures
        strictly_sorted(views_of(r@)),
        forall|q: Seq<u8>| #[trigger] views_of(r@).contains(q) <==> expansion_of(
            views_of(patterns@),
            q,
        ),
{
    let mut r: Vec<Vec<u8>> = Vec::new();
    let mut i: usize = 0;
    proof {
        assert(views_of(r@) =~= Seq::<Seq<u8>>::empty());
    }
    while i < patterns.len()
        invariant
            i <= patterns.len(),
            strictly_sorted(views_of(r@)),
            forall|q: Seq<u8>| #[trigger]
                views_of(r@).contains(q) <==> exists|j: int|
                    0 <= j < i && expands_to(views_of(patterns@)[j], q),
        decreases patterns.len() - i,
    {
        let ex = expand_one(&patterns[i]);
        proof {
            assert(patterns@[i as int]@ == views_of(patterns@)[i as int]);
        }
        let mut t: usize = 0;
        while t < ex.len()
            invariant
                t <= ex.len(),
                i < patterns.len(),
                strictly_sorted(views_of(r@)),
                forall|q: Seq<u8>| #[trigger]
                    views_of(ex@).contains(q) <==> expands_to(views_of(patterns@)[i as int], q),
                forall|q: Seq<u8>| #[trigger]
                    views_of(r@).contains(q) <==> (exists|j: int|
                        0 <= j < i && expands_to(views_of(patterns@)[j], q)) || (exists|u: int|
                        0 <= u < t && views_of(ex@)[u] == q),
            decreases ex.len() - t,
        {
            let ghost r0 = views_of(r@);
            insert_unique_sorted(&mut r, copy_bytes(&ex[t]));
            proof {
                assert(views_of(ex@)[t as int] == ex@[t as int]@);
                assert forall|q: Seq<u8>| #[trigger]
                    views_of(r@).contains(q) <==> (exists|j: int|
                        0 <= j < i && expands_to(views_of(patterns@)[j], q)) || (exists|u: int|
                        0 <= u < t + 1 && views_of(ex@)[u] == q) by {
                    if views_of(r@).contains(q) {
                        if r0.contains(q) {
                        } else {
                            assert(q == views_of(ex@)[t as int]);
                        }
                    }
                    if exists|u: int| 0 <= u < t + 1 && views_of(ex@)[u] == q {
                        let u = choose|u: int| 0 <= u < t + 1 && views_of(ex@)[u] == q;
                        if u < t {
                            assert(r0.contains(q));
                        }
                    }
                }
            }
            t += 1;
        }
        proof {
            assert forall|q: Seq<u8>| #[trigger]
                views_of(r@).contains(q) <==> (exists|j: int|
                    0 <= j < i + 1 && expands_to(views_of(patterns@)[j], q)) by {
                if exists|u: int| 0 <= u < ex@.len() && views_of(ex@)[u] == q {
                    assert(views_of(ex@).contains(q));
                }
                if expands_to(views_of(patterns@)[i as int], q) {
                    assert(views_of(ex@).contains(q));
                    let u = choose|u: int|
                        0 <= u < views_of(ex@).len() && views_of(ex@)[u] == q;
                    assert(0 <= u < ex@.len() && views_of(ex@)[u] == q);
                }
            }
        }
        i += 1;
    }
    r
}

} // verus!
