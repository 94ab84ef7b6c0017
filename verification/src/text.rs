//! Byte-level text helpers shared by the other modules: whitespace tests,
//! lexicographic order, substring search, trimming, ASCII lowercasing and
//! decimal rendering. All content is handled as UTF-8 bytes; every delimiter
//! the library cares about is a single ASCII byte, which multi-byte UTF-8
//! sequences can never contain.
use vstd::prelude::*;

verus! {

/// ASCII whitespace: tab, line feed, vertical tab, form feed, carriage
/// return, space.
pub open spec fn is_ws(b: u8) -> bool {
    b == 32 || b == 9 || b == 10 || b == 11 || b == 12 || b == 13
}

pub fn byte_is_ws(b: u8) -> (r: bool)
    ensures
        r == is_ws(b),
{
    b == 32 || b == 9 || b == 11 || b == 12 || b == 13 || b == 10
}

pub fn bytes_eq(a: &Vec<u8>, b: &Vec<u8>) -> (r: bool)
    ensures
        r <==> a@ == b@,
{
    if a.len() != b.len() {
        return false;
    }
    let mut i: usize = 0;
    while i < a.len()
        invariant
            i <= a.len(),
            a.len() == b.len(),
            forall|k: int| 0 <= k < i ==> a@[k] == b@[k],
        decreases a.len() - i,
    {
        if a[i] != b[i] {
            return false;
        }
        i += 1;
    }
    proof {
        assert(a@ =~= b@);
    }
    true
}

pub fn copy_bytes(v: &Vec<u8>) -> (r: Vec<u8>)
    ensures
        r@ == v@,
{
    let mut r: Vec<u8> = Vec::new();
    let mut i: usize = 0;
    while i < v.len()
        invariant
            i <= v.len(),
            r@ =~= v@.subrange(0, i as int),
        decreases v.len() - i,
    {
        r.push(v[i]);
        proof {
            assert(r@ =~= v@.subrange(0, i + 1));
        }
        i += 1;
    }
    proof {
        assert(r@ =~= v@);
    }
    r
}

pub fn append_bytes(dst: &mut Vec<u8>, src: &Vec<u8>)
    ensures
        final(dst)@ == old(dst)@ + src@,
{
    let mut i: usize = 0;
    while i < src.len()
        invariant
            i <= src.len(),
            dst@ =~= old(dst)@ + src@.subrange(0, i as int),
        decreases src.len() - i,
    {
        dst.push(src[i]);
        proof {
            assert(dst@ =~= old(dst)@ + src@.subrange(0, i + 1));
        }
        i += 1;
    }
    proof {
        assert(dst@ =~= old(dst)@ + src@);
    }
}

/// The needle `sub` occurs in `s` starting at position `i`.
pub open spec fn has_sub_at(s: Seq<u8>, sub: Seq<u8>, i: int) -> bool {
    0 <= i && i + sub.len() <= s.len() && s.subrange(i, i + sub.len() as int) == sub
}

/// The needle `sub` occurs somewhere in `s`.
pub open spec fn has_sub(s: Seq<u8>, sub: Seq<u8>) -> bool {
    exists|i: int| has_sub_at(s, sub, i)
}

pub fn match_at(s: &Vec<u8>, sub: &Vec<u8>, i: usize) -> (r: bool)
    requires
        i + sub.len() <= s.len(),
    ensures
        r == has_sub_at(s@, sub@, i as int),
{
    let mut k: usize = 0;
    while k < sub.len()
        invariant
            k <= sub.len(),
            i + sub.len() <= s.len(),
            forall|j: int| 0 <= j < k ==> s@[i + j] == sub@[j],
        decreases sub.len() - k,
    {
        if s[i + k] != sub[k] {
            proof {
                assert(s@.subrange(i as int, i + sub@.len()) != sub@) by {
                    assert(s@.subrange(i as int, i + sub@.len())[k as int] == s@[i + k]);
                }
            }
            return false;
        }
        k += 1;
    }
    proof {
        assert(s@.subrange(i as int, i + sub@.len()) =~= sub@);
    }
    true
}

pub fn contains_sub(s: &Vec<u8>, sub: &Vec<u8>) -> (r: bool)
    ensures
        r == has_sub(s@, sub@),
{
    match find_first_sub(s, sub) {
        Option::Some(_) => true,
        Option::None => false,
    }
}

/// Index of the first occurrence of `sub` at or after `i`, or -1.
pub open spec fn first_sub_at(s: Seq<u8>, sub: Seq<u8>, i: int) -> int
    decreases s.len() - i,
{
    if i < 0 || i + sub.len() > s.len() {
        -1
    } else if sub.len() == 0 {
        i
    } else if s.subrange(i, i + sub.len() as int) == sub {
        i
    } else {
        first_sub_at(s, sub, i + 1)
    }
}

pub proof fn lemma_first_sub_at(s: Seq<u8>, sub: Seq<u8>, i: int)
    requires
        0 <= i,
    ensures
        first_sub_at(s, sub, i) == -1 ==> forall|j: int| i <= j ==> !has_sub_at(s, sub, j),
        first_sub_at(s, sub, i) != -1 ==> i <= first_sub_at(s, sub, i)
            && has_sub_at(s, sub, first_sub_at(s, sub, i))
            && forall|j: int| i <= j < first_sub_at(s, sub, i) ==> !has_sub_at(s, sub, j),
    decreases s.len() - i,
{
    if i + sub.len() > s.len() {
        assert(forall|j: int| i <= j ==> !has_sub_at(s, sub, j));
    } else if sub.len() == 0 {
        assert(s.subrange(i, i) =~= sub);
    } else if s.subrange(i, i + sub.len() as int) == sub {
    } else {
        lemma_first_sub_at(s, sub, i + 1);
    }
}

pub fn find_first_sub(s: &Vec<u8>, sub: &Vec<u8>) -> (r: Option<usize>)
    ensures
        match r {
            Option::Some(m) => m == first_sub_at(s@, sub@, 0) && has_sub_at(s@, sub@, m as int),
            Option::None => first_sub_at(s@, sub@, 0) == -1 && !has_sub(s@, sub@),
        },
{
    proof {
        lemma_first_sub_at(s@, sub@, 0);
    }
    if sub.len() > s.len() {
        return Option::None;
    }
    if sub.len() == 0 {
        proof {
            assert(has_sub_at(s@, sub@, 0)) by {
                assert(s@.subrange(0, 0) =~= sub@);
            }
        }
        return Option::Some(0);
    }
    let bound = s.len() - sub.len();
    let mut i: usize = 0;
    while i <= bound
        invariant
            sub.len() >= 1,
            sub.len() <= s.len(),
            bound == s.len() - sub.len(),
            i <= bound + 1,
            forall|j: int| 0 <= j < i ==> !has_sub_at(s@, sub@, j),
            first_sub_at(s@, sub@, 0) == first_sub_at(s@, sub@, i as int),
        decreases bound + 1 - i,
    {
        if match_at(s, sub, i) {
            return Option::Some(i);
        }
        i += 1;
    }
    proof {
        assert(!has_sub(s@, sub@)) by {
            assert(forall|j: int| #[trigger] has_sub_at(s@, sub@, j) ==> 0 <= j < i);
        }
    }
    Option::None
}

/// Strict lexicographic order on byte strings.
pub open spec fn lex_lt(a: Seq<u8>, b: Seq<u8>) -> bool
    decreases a.len(),
{
    if b.len() == 0 {
        false
    } else if a.len() == 0 {
        true
    } else if a[0] < b[0] {
        true
    } else if a[0] > b[0] {
        false
    } else {
        lex_lt(a.drop_first(), b.drop_first())
    }
}

pub proof fn lemma_lex_trichotomy(a: Seq<u8>, b: Seq<u8>)
    ensures
        lex_lt(a, b) || lex_lt(b, a) || a == b,
        lex_lt(a, b) ==> !lex_lt(b, a) && a != b,
        lex_lt(b, a) ==> !lex_lt(a, b) && a != b,
    decreases a.len(),
{
    if a.len() == 0 && b.len() == 0 {
        assert(a =~= b);
    } else if a.len() > 0 && b.len() > 0 && a[0] == b[0] {
        lemma_lex_trichotomy(a.drop_first(), b.drop_first());
        if a.drop_first() == b.drop_first() {
            assert forall|k: int| 0 <= k < a.len() implies a[k] == b[k] by {
                if k > 0 {
                    assert(a[k] == a.drop_first()[k - 1]);
                    assert(b[k] == b.drop_first()[k - 1]);
                }
            }
            assert(a =~= b);
        }
        if a == b {
            assert(a.drop_first() =~= b.drop_first());
        }
    }
}

pub proof fn lemma_lex_transitive(a: Seq<u8>, b: Seq<u8>, c: Seq<u8>)
    requires
        lex_lt(a, b),
        lex_lt(b, c),
    ensures
        lex_lt(a, c),
    decreases a.len(),
{
    if b.len() > 0 && c.len() > 0 && a.len() > 0 {
        if a[0] == b[0] && b[0] == c[0] {
            lemma_lex_transitive(a.drop_first(), b.drop_first(), c.drop_first());
        }
    }
}

proof fn lemma_lex_lt_skip(a: Seq<u8>, b: Seq<u8>, i: int)
    requires
        0 <= i <= a.len(),
        i <= b.len(),
        forall|k: int| 0 <= k < i ==> a[k] == b[k],
    ensures
        lex_lt(a, b) == lex_lt(a.skip(i), b.skip(i)),
    decreases i,
{
    if i > 0 && a.len() > 0 && b.len() > 0 {
        assert(a.drop_first().skip(i - 1) =~= a.skip(i));
        assert(b.drop_first().skip(i - 1) =~= b.skip(i));
        lemma_lex_lt_skip(a.drop_first(), b.drop_first(), i - 1);
    } else if i == 0 {
        assert(a.skip(0) =~= a);
        assert(b.skip(0) =~= b);
    }
}

pub fn bytes_lt(a: &Vec<u8>, b: &Vec<u8>) -> (r: bool)
    ensures
        r == lex_lt(a@, b@),
{
    let mut i: usize = 0;
    while i < a.len() && i < b.len()
        invariant
            i <= a.len(),
            i <= b.len(),
            forall|k: int| 0 <= k < i ==> a@[k] == b@[k],
        decreases a.len() - i,
    {
        proof {
            lemma_lex_lt_skip(a@, b@, i as int);
        }
        if a[i] < b[i] {
            return true;
        }
        if a[i] > b[i] {
            return false;
        }
        i += 1;
    }
    proof {
        lemma_lex_lt_skip(a@, b@, i as int);
    }
    a.len() < b.len()
}

pub fn copy_range(v: &Vec<u8>, a: usize, b: usize) -> (r: Vec<u8>)
    requires
        a <= b <= v.len(),
    ensures
        r@ == v@.subrange(a as int, b as int),
{
    let mut r: Vec<u8> = Vec::new();
    let mut i: usize = a;
    while i < b
        invariant
            a <= i <= b <= v.len(),
            r@ =~= v@.subrange(a as int, i as int),
        decreases b - i,
    {
        r.push(v[i]);
        proof {
            assert(r@ =~= v@.subrange(a as int, i + 1));
        }
        i += 1;
    }
    r
}

/// The mathematical views of a list of byte vectors.
pub open spec fn views_of(vs: Seq<Vec<u8>>) -> Seq<Seq<u8>> {
    vs.map_values(|v: Vec<u8>| v@)
}

/// Each entry strictly below its successor: sorted with no duplicates.
pub open spec fn strictly_sorted(ss: Seq<Seq<u8>>) -> bool {
    forall|i: int| 0 <= i < ss.len() - 1 ==> lex_lt(#[trigger] ss[i], ss[i + 1])
}

pub proof fn lemma_strictly_sorted_pairwise(ss: Seq<Seq<u8>>, i: int, j: int)
    requires
        strictly_sorted(ss),
        0 <= i < j < ss.len(),
    ensures
        lex_lt(ss[i], ss[j]),
    decreases j - i,
{
    if j == i + 1 {
    } else {
        lemma_strictly_sorted_pairwise(ss, i, j - 1);
        lemma_lex_transitive(ss[i], ss[j - 1], ss[j]);
    }
}

proof fn lemma_sorted_unique_heads(a: Seq<Seq<u8>>, b: Seq<Seq<u8>>)
    requires
        strictly_sorted(a),
        strictly_sorted(b),
        a.len() > 0,
        b.len() > 0,
        b.contains(a[0]),
        a.contains(b[0]),
    ensures
        a[0] == b[0],
{
    let ja = choose|j: int| 0 <= j < b.len() && b[j] == a[0];
    let jb = choose|j: int| 0 <= j < a.len() && a[j] == b[0];
    assert(0 <= ja < b.len() && b[ja] == a[0]);
    assert(0 <= jb < a.len() && a[jb] == b[0]);
    if ja != 0 && jb != 0 {
        lemma_strictly_sorted_pairwise(b, 0, ja);
        lemma_strictly_sorted_pairwise(a, 0, jb);
        lemma_lex_transitive(a[0], b[0], a[0]);
        lemma_lex_trichotomy(a[0], a[0]);
        assert(false);
    }
}

/// Two strictly sorted lists that hold the same strings are identical.
#[verifier::rlimit(50)]
pub proof fn lemma_sorted_unique_eq(a: Seq<Seq<u8>>, b: Seq<Seq<u8>>)
    requires
        strictly_sorted(a),
        strictly_sorted(b),
        forall|q: Seq<u8>| #[trigger] a.contains(q) <==> b.contains(q),
    ensures
        a == b,
    decreases a.len(),
{
    if a.len() == 0 {
        if b.len() > 0 {
            assert(b.contains(b[0]));
            assert(a.contains(b[0]));
        }
        assert(a =~= b);
    } else if b.len() == 0 {
        assert(a.contains(a[0]));
        assert(b.contains(a[0]));
    } else {
        assert(b.contains(b[0]));
        assert(a.contains(b[0]));
        assert(a.contains(a[0]));
        assert(b.contains(a[0]));
        lemma_sorted_unique_heads(a, b);
        assert forall|q: Seq<u8>| #[trigger] a.drop_first().contains(q) implies b.drop_first()
            .contains(q) by {
            lemma_head_tail_contains(a, b, q);
        }
        assert forall|q: Seq<u8>| #[trigger] b.drop_first().contains(q) implies a.drop_first()
            .contains(q) by {
            lemma_head_tail_contains(b, a, q);
        }
        lemma_sorted_unique_eq(a.drop_first(), b.drop_first());
        assert(a.len() == b.len());
        assert forall|k: int| 0 <= k < a.len() implies a[k] == b[k] by {
            if k > 0 {
                assert(a[k] == a.drop_first()[k - 1]);
                assert(b[k] == b.drop_first()[k - 1]);
            }
        }
        assert(a =~= b);
    }
}

proof fn lemma_head_tail_contains(a: Seq<Seq<u8>>, b: Seq<Seq<u8>>, q: Seq<u8>)
    requires
        strictly_sorted(a),
        strictly_sorted(b),
        a.len() > 0,
        b.len() > 0,
        a[0] == b[0],
        forall|x: Seq<u8>| #[trigger] a.contains(x) <==> b.contains(x),
        a.drop_first().contains(q),
    ensures
        b.drop_first().contains(q),
{
    let i = choose|i: int| 0 <= i < a.drop_first().len() && a.drop_first()[i] == q;
    assert(a[i + 1] == q);
    lemma_strictly_sorted_pairwise(a, 0, i + 1);
    assert(a.contains(q)) by {
        assert(a[i + 1] == q);
    }
    assert(b.contains(q));
    let j = choose|j: int| 0 <= j < b.len() && b[j] == q;
    lemma_lex_trichotomy(a[0], q);
    if j == 0 {
        assert(q == b[0]);
        assert(false);
    }
    assert(b.drop_first()[j - 1] == q);
}

/// Inserts `x` into a strictly sorted list, keeping it sorted and dropping
/// the insertion when an equal entry is already present.
pub fn insert_unique_sorted(dst: &mut Vec<Vec<u8>>, x: Vec<u8>)
    requires
        strictly_sorted(views_of(old(dst)@)),
    ensures
        strictly_sorted(views_of(final(dst)@)),
        forall|q: Seq<u8>| #[trigger] views_of(final(dst)@).contains(q) <==> views_of(
            old(dst)@,
        ).contains(q) || q == x@,
{
    let ghost vs0 = views_of(old(dst)@);
    let mut idx: usize = 0;
    while idx < dst.len() && bytes_lt(&dst[idx], &x)
        invariant
            idx <= dst.len(),
            dst@ == old(dst)@,
            vs0 == views_of(dst@),
            forall|j: int| 0 <= j < idx ==> lex_lt(#[trigger] vs0[j], x@),
        decreases dst.len() - idx,
    {
        proof {
            assert(vs0[idx as int] == dst@[idx as int]@);
        }
        idx += 1;
    }
    if idx < dst.len() && bytes_eq(&dst[idx], &x) {
        proof {
            assert(vs0[idx as int] == x@);
            assert(vs0.contains(x@));
            assert(views_of(dst@) =~= vs0);
        }
        return;
    }
    proof {
        if idx < dst@.len() {
            lemma_lex_trichotomy(vs0[idx as int], x@);
        }
    }
    dst.insert(idx, x);
    proof {
        let vs1 = views_of(dst@);
        assert(vs1 =~= vs0.insert(idx as int, x@));
        assert forall|i: int| 0 <= i < vs1.len() - 1 implies lex_lt(#[trigger] vs1[i], vs1[i + 1]) by {
            if i + 1 < idx {
                assert(vs1[i] == vs0[i] && vs1[i + 1] == vs0[i + 1]);
            } else if i + 1 == idx {
                assert(vs1[i] == vs0[i] && vs1[i + 1] == x@);
            } else if i == idx {
                assert(vs1[i] == x@ && vs1[i + 1] == vs0[i]);
            } else {
                assert(vs1[i] == vs0[i - 1] && vs1[i + 1] == vs0[i]);
            }
        }
        assert forall|q: Seq<u8>| #[trigger] vs1.contains(q) implies vs0.contains(q) || q == x@ by {
            let i = choose|i: int| 0 <= i < vs1.len() && vs1[i] == q;
            if i < idx {
                assert(vs0[i] == q);
            } else if i > idx {
                assert(vs0[i - 1] == q);
            }
        }
        assert forall|q: Seq<u8>| vs0.contains(q) || q == x@ implies #[trigger] vs1.contains(q) by {
            if q == x@ {
                assert(vs1[idx as int] == q);
            } else {
                let i = choose|i: int| 0 <= i < vs0.len() && vs0[i] == q;
                if i < idx {
                    assert(vs1[i] == q);
                } else {
                    assert(vs1[i + 1] == q);
                }
            }
        }
    }
}

/// Leading whitespace removed.
pub open spec fn trim_left(s: Seq<u8>) -> Seq<u8>
    decreases s.len(),
{
    if s.len() > 0 && is_ws(s[0]) {
        trim_left(s.drop_first())
    } else {
        s
    }
}

/// Trailing whitespace removed.
pub open spec fn trim_right(s: Seq<u8>) -> Seq<u8>
    decreases s.len(),
{
    if s.len() > 0 && is_ws(s.last()) {
        trim_right(s.drop_last())
    } else {
        s
    }
}

/// Leading and trailing whitespace removed.
pub open spec fn trim_spec(s: Seq<u8>) -> Seq<u8> {
    trim_right(trim_left(s))
}

proof fn lemma_trim_left_len(s: Seq<u8>)
    ensures
        trim_left(s).len() <= s.len(),
    decreases s.len(),
{
    if s.len() > 0 && is_ws(s[0]) {
        lemma_trim_left_len(s.drop_first());
    }
}

proof fn lemma_trim_right_len(s: Seq<u8>)
    ensures
        trim_right(s).len() <= s.len(),
    decreases s.len(),
{
    if s.len() > 0 && is_ws(s.last()) {
        lemma_trim_right_len(s.drop_last());
    }
}

pub proof fn lemma_trim_len(s: Seq<u8>)
    ensures
        trim_spec(s).len() <= s.len(),
{
    lemma_trim_left_len(s);
    lemma_trim_right_len(trim_left(s));
}

proof fn lemma_trim_left_skip(s: Seq<u8>, i: int)
    requires
        0 <= i <= s.len(),
        forall|k: int| 0 <= k < i ==> is_ws(s[k]),
        i == s.len() || !is_ws(s[i]),
    ensures
        trim_left(s) == s.skip(i),
    decreases i,
{
    if i == 0 {
        assert(s.skip(0) =~= s);
    } else {
        assert(s.drop_first().skip(i - 1) =~= s.skip(i));
        lemma_trim_left_skip(s.drop_first(), i - 1);
    }
}

proof fn lemma_trim_right_take(s: Seq<u8>, j: int)
    requires
        0 <= j <= s.len(),
        forall|k: int| j <= k < s.len() ==> is_ws(s[k]),
        j == 0 || !is_ws(s[j - 1]),
    ensures
        trim_right(s) == s.take(j),
    decreases s.len() - j,
{
    if j == s.len() {
        assert(s.take(j) =~= s);
    } else {
        assert(s.drop_last().take(j) =~= s.take(j));
        lemma_trim_right_take(s.drop_last(), j);
    }
}

pub fn trim_bytes(s: &Vec<u8>) -> (r: Vec<u8>)
    ensures
        r@ == trim_spec(s@),
{
    let mut lo: usize = 0;
    while lo < s.len() && byte_is_ws(s[lo])
        invariant
            lo <= s.len(),
            forall|k: int| 0 <= k < lo ==> is_ws(s@[k]),
        decreases s.len() - lo,
    {
        lo += 1;
    }
    proof {
        lemma_trim_left_skip(s@, lo as int);
    }
    let mut hi: usize = s.len();
    while hi > lo && byte_is_ws(s[hi - 1])
        invariant
            lo <= hi <= s.len(),
            forall|k: int| hi <= k < s.len() ==> is_ws(s@[k]),
        decreases hi,
    {
        hi -= 1;
    }
    let mut r: Vec<u8> = Vec::new();
    let mut i: usize = lo;
    while i < hi
        invariant
            lo <= i <= hi <= s.len(),
            r@ =~= s@.subrange(lo as int, i as int),
        decreases hi - i,
    {
        r.push(s[i]);
        proof {
            assert(r@ =~= s@.subrange(lo as int, i + 1));
        }
        i += 1;
    }
    proof {
        let t = s@.skip(lo as int);
        assert(forall|k: int| hi - lo <= k < t.len() ==> is_ws(#[trigger] t[k]));
        if hi > lo {
            assert(!is_ws(t[hi - lo - 1]));
        }
        lemma_trim_right_take(t, hi - lo);
        assert(t.take(hi - lo) =~= s@.subrange(lo as int, hi as int));
        assert(r@ =~= s@.subrange(lo as int, hi as int));
    }
    r
}

/// Uppercase ASCII letters mapped to lowercase; other bytes unchanged.
pub open spec fn lower_byte(b: u8) -> u8 {
    if 65 <= b <= 90 {
        (b + 32) as u8
    } else {
        b
    }
}

pub open spec fn lower_bytes(s: Seq<u8>) -> Seq<u8> {
    s.map_values(|b: u8| lower_byte(b))
}

pub fn ascii_lowercase(s: &Vec<u8>) -> (r: Vec<u8>)
    ensures
        r@ == lower_bytes(s@),
{
    let mut r: Vec<u8> = Vec::new();
    let mut i: usize = 0;
    while i < s.len()
        invariant
            i <= s.len(),
            r@.len() == i,
            forall|k: int| 0 <= k < i ==> r@[k] == lower_byte(s@[k]),
        decreases s.len() - i,
    {
        let b = s[i];
        if 65 <= b && b <= 90 {
            r.push(b + 32);
        } else {
            r.push(b);
        }
        i += 1;
    }
    proof {
        assert(r@ =~= lower_bytes(s@));
    }
    r
}

/// Decimal digits of `n`, most significant first.
pub open spec fn dec_digits(n: nat) -> Seq<u8>
    decreases n,
{
    if n < 10 {
        seq![(48 + n) as u8]
    } else {
        dec_digits(n / 10).push((48 + n % 10) as u8)
    }
}

pub fn usize_to_dec(n: usize) -> (r: Vec<u8>)
    ensures
        r@ == dec_digits(n as nat),
    decreases n,
{
    if n < 10 {
        let mut r: Vec<u8> = Vec::new();
        r.push(48 + (n as u8));
        proof {
            assert(r@ =~= dec_digits(n as nat));
        }
        r
    } else {
        let mut r = usize_to_dec(n / 10);
        r.push(48 + ((n % 10) as u8));
        r
    }
}

/// Index of the first line feed at or after `i`, or the length of `s`.
pub open spec fn first_nl(s: Seq<u8>, i: int) -> int
    decreases s.len() - i,
{
    if i < 0 || i >= s.len() {
        s.len() as int
    } else if s[i] == 10 {
        i
    } else {
        first_nl(s, i + 1)
    }
}

pub proof fn lemma_first_nl_shift(s: Seq<u8>, i: int, j: int)
    requires
        0 <= i <= j <= s.len(),
    ensures
        first_nl(s.skip(i), j - i) == first_nl(s, j) - i,
    decreases s.len() - j,
{
    if j < s.len() {
        assert(s.skip(i)[j - i] == s[j]);
        if s[j] != 10 {
            lemma_first_nl_shift(s, i, j + 1);
        }
    }
}

pub proof fn lemma_first_nl(s: Seq<u8>, i: int)
    requires
        0 <= i <= s.len(),
    ensures
        i <= first_nl(s, i) <= s.len(),
        first_nl(s, i) < s.len() ==> s[first_nl(s, i)] == 10,
        forall|k: int| i <= k < first_nl(s, i) ==> s[k] != 10,
    decreases s.len() - i,
{
    if i < s.len() && s[i] != 10 {
        lemma_first_nl(s, i + 1);
    }
}

} // verus!
