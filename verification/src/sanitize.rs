//! The content sanitizer. A file's text is scanned left to right by a small
//! state machine over "normal / in-literal / in-line-comment /
//! in-block-comment" states: quoted and template literals are copied verbatim
//! (escape pairs included), comments are dropped, and an unterminated literal
//! or block comment extends to the end of the text. Afterwards every run of
//! whitespace-only lines collapses to a single line break and the whole
//! result is trimmed.
use crate::text::{
    byte_is_ws, first_nl, is_ws, lemma_first_nl, lemma_first_nl_shift, trim_bytes, trim_spec,
};
use vstd::prelude::*;

verus! {

/// Comment-syntax family of a file, chosen from its extension or name.
#[derive(Clone, Copy, PartialEq, Eq, Structural, Debug)]
pub enum Style {
    /// `//` and `/* ... */` comments; double-, single- and backtick-quoted
    /// literals are protected.
    CStyle,
    /// `#` comments; double- and single-quoted literals are protected.
    ScriptStyle,
    /// `//`, `/* ... */` and `#` comments; literals as in `CStyle`.
    PhpStyle,
    /// No stripping at all.
    Plain,
}

/// Scanner state: between tokens, inside a literal opened by the given
/// delimiter, inside a line comment, or inside a block comment.
#[derive(Clone, Copy)]
pub enum ScanState {
    Normal,
    InLit(u8),
    InLine,
    InBlock,
}

/// Bytes that open a protected literal for the style: `"` and `'`, plus
/// a backtick for the c-style families.
pub open spec fn lit_open(st: Style, b: u8) -> bool {
    match st {
        Style::CStyle => b == 34 || b == 39 || b == 96,
        Style::ScriptStyle => b == 34 || b == 39,
        Style::PhpStyle => b == 34 || b == 39 || b == 96,
        Style::Plain => false,
    }
}

/// A line comment (`//` or `#`, by style) starts at the head of `s`.
pub open spec fn line_comment_head(st: Style, s: Seq<u8>) -> bool {
    match st {
        Style::CStyle => s.len() >= 2 && s[0] == 47 && s[1] == 47,
        Style::ScriptStyle => s.len() >= 1 && s[0] == 35,
        Style::PhpStyle => (s.len() >= 2 && s[0] == 47 && s[1] == 47) || (s.len() >= 1 && s[0]
            == 35),
        Style::Plain => false,
    }
}

/// A block comment `/*` starts at the head of `s`.
pub open spec fn block_comment_head(st: Style, s: Seq<u8>) -> bool {
    match st {
        Style::CStyle | Style::PhpStyle => s.len() >= 2 && s[0] == 47 && s[1] == 42,
        _ => false,
    }
}

/// One left-to-right pass of the comment scanner. At each position the first
/// applicable rule wins, with priority literal > comment > ordinary byte.
/// A line comment is dropped up to (not including) the next line feed; a
/// block comment is dropped through its closing `*/`; both extend to the end
/// of the text when unterminated, as does a literal.
pub open spec fn scan(st: Style, s: Seq<u8>, state: ScanState) -> Seq<u8>
    decreases s.len(),
{
    if s.len() == 0 {
        Seq::empty()
    } else {
        match state {
            ScanState::Normal => {
                if lit_open(st, s[0]) {
                    seq![s[0]] + scan(st, s.drop_first(), ScanState::InLit(s[0]))
                } else if block_comment_head(st, s) {
                    scan(st, s.skip(2), ScanState::InBlock)
                } else if line_comment_head(st, s) {
                    scan(st, s.drop_first(), ScanState::InLine)
                } else {
                    seq![s[0]] + scan(st, s.drop_first(), ScanState::Normal)
                }
            },
            ScanState::InLit(d) => {
                if s[0] == 92 {
                    if s.len() >= 2 {
                        s.subrange(0, 2) + scan(st, s.skip(2), ScanState::InLit(d))
                    } else {
                        seq![s[0]]
                    }
                } else if s[0] == d {
                    seq![s[0]] + scan(st, s.drop_first(), ScanState::Normal)
                } else {
                    seq![s[0]] + scan(st, s.drop_first(), ScanState::InLit(d))
                }
            },
            ScanState::InLine => {
                if s[0] == 10 {
                    seq![s[0]] + scan(st, s.drop_first(), ScanState::Normal)
                } else {
                    scan(st, s.drop_first(), ScanState::InLine)
                }
            },
            ScanState::InBlock => {
                if s.len() >= 2 && s[0] == 42 && s[1] == 47 {
                    scan(st, s.skip(2), ScanState::Normal)
                } else {
                    scan(st, s.drop_first(), ScanState::InBlock)
                }
            },
        }
    }
}

/// Comment removal: the scanner run from its initial state.
pub open spec fn strip_comments_spec(st: Style, s: Seq<u8>) -> Seq<u8> {
    scan(st, s, ScanState::Normal)
}

fn is_lit_open_exec(st: Style, b: u8) -> (r: bool)
    ensures
        r == lit_open(st, b),
{
    match st {
        Style::CStyle => b == 34 || b == 39 || b == 96,
        Style::ScriptStyle => b == 34 || b == 39,
        Style::PhpStyle => b == 34 || b == 39 || b == 96,
        Style::Plain => false,
    }
}

/// Removes comments from `text` under the given style, returning every
/// protected literal verbatim.
pub fn strip_comments(text: &Vec<u8>, st: Style) -> (r: Vec<u8>)
    ensures
        r@ == strip_comments_spec(st, text@),
{
    let mut out: Vec<u8> = Vec::new();
    let mut state: ScanState = ScanState::Normal;
    let mut i: usize = 0;
    proof {
        assert(text@.skip(0) =~= text@);
        assert(out@ + scan(st, text@, ScanState::Normal) =~= scan(st, text@, ScanState::Normal));
    }
    while i < text.len()
        invariant
            i <= text.len(),
            out@ + scan(st, text@.skip(i as int), state) == strip_comments_spec(st, text@),
        decreases text.len() - i,
    {
        let ghost pre = text@.skip(i as int);
        let ghost out0 = out@;
        let ghost st0 = state;
        proof {
            assert(pre.len() == text@.len() - i);
            assert(pre[0] == text@[i as int]);
            assert(pre.drop_first() =~= text@.skip(i as int + 1));
            if pre.len() >= 2 {
                assert(pre[1] == text@[i as int + 1]);
                assert(pre.skip(2) =~= text@.skip(i as int + 2));
            }
        }
        let b = text[i];
        match state {
            ScanState::Normal => {
                let is_c_family = match st {
                    Style::CStyle | Style::PhpStyle => true,
                    _ => false,
                };
                let is_hash_family = match st {
                    Style::ScriptStyle | Style::PhpStyle => true,
                    _ => false,
                };
                if is_lit_open_exec(st, b) {
                    out.push(b);
                    state = ScanState::InLit(b);
                    proof {
                        assert(out@ + scan(st, text@.skip(i as int + 1), state) =~= out0 + scan(
                            st,
                            pre,
                            st0,
                        ));
                    }
                    i += 1;
                } else if is_c_family && b == 47 && i + 1 < text.len() && text[i + 1] == 42 {
                    state = ScanState::InBlock;
                    proof {
                        assert(block_comment_head(st, pre));
                        assert(out@ + scan(st, text@.skip(i as int + 2), state) =~= out0 + scan(
                            st,
                            pre,
                            st0,
                        ));
                    }
                    i += 2;
                } else if (is_c_family && b == 47 && i + 1 < text.len() && text[i + 1] == 47) || (
                is_hash_family && b == 35) {
                    state = ScanState::InLine;
                    proof {
                        assert(line_comment_head(st, pre));
                        assert(!block_comment_head(st, pre));
                        assert(out@ + scan(st, text@.skip(i as int + 1), state) =~= out0 + scan(
                            st,
                            pre,
                            st0,
                        ));
                    }
                    i += 1;
                } else {
                    out.push(b);
                    proof {
                        assert(!line_comment_head(st, pre));
                        assert(!block_comment_head(st, pre));
                        assert(out@ + scan(st, text@.skip(i as int + 1), state) =~= out0 + scan(
                            st,
                            pre,
                            st0,
                        ));
                    }
                    i += 1;
                }
            },
            ScanState::InLit(d) => {
                if b == 92 {
                    if i + 1 < text.len() {
                        out.push(b);
                        let b2 = text[i + 1];
                        out.push(b2);
                        proof {
                            assert(pre.subrange(0, 2) =~= seq![b, b2]);
                            assert(out@ =~= out0 + pre.subrange(0, 2));
                            assert(out@ + scan(st, text@.skip(i as int + 2), state) =~= out0 + scan(
                                st,
                                pre,
                                st0,
                            ));
                        }
                        i += 2;
                    } else {
                        out.push(b);
                        proof {
                            assert(text@.skip(i as int + 1) =~= Seq::<u8>::empty());
                            assert(out@ + scan(st, text@.skip(i as int + 1), state) =~= out0 + scan(
                                st,
                                pre,
                                st0,
                            ));
                        }
                        i += 1;
                    }
                } else if b == d {
                    out.push(b);
                    state = ScanState::Normal;
                    proof {
                        assert(out@ + scan(st, text@.skip(i as int + 1), state) =~= out0 + scan(
                            st,
                            pre,
                            st0,
                        ));
                    }
                    i += 1;
                } else {
                    out.push(b);
                    proof {
                        assert(out@ + scan(st, text@.skip(i as int + 1), state) =~= out0 + scan(
                            st,
                            pre,
                            st0,
                        ));
                    }
                    i += 1;
                }
            },
            ScanState::InLine => {
                if b == 10 {
                    out.push(b);
                    state = ScanState::Normal;
                }
                proof {
                    assert(out@ + scan(st, text@.skip(i as int + 1), state) =~= out0 + scan(
                        st,
                        pre,
                        st0,
                    ));
                }
                i += 1;
            },
            ScanState::InBlock => {
                if b == 42 && i + 1 < text.len() && text[i + 1] == 47 {
                    state = ScanState::Normal;
                    proof {
                        assert(out@ + scan(st, text@.skip(i as int + 2), state) =~= out0 + scan(
                            st,
                            pre,
                            st0,
                        ));
                    }
                    i += 2;
                } else {
                    proof {
                        assert(out@ + scan(st, text@.skip(i as int + 1), state) =~= out0 + scan(
                            st,
                            pre,
                            st0,
                        ));
                    }
                    i += 1;
                }
            },
        }
    }
    proof {
        assert(text@.skip(i as int) =~= Seq::<u8>::empty());
        assert(out@ + scan(st, text@.skip(i as int), state) =~= out@);
    }
    out
}

/// End (one past the line feed) of the whitespace-only line that starts at
/// `i`, or -1 when the text at `i` does not start a whitespace-only line
/// terminated by a line feed.
pub open spec fn blank_line_end(s: Seq<u8>, i: int) -> int
    decreases s.len() - i,
{
    if i < 0 || i >= s.len() {
        -1
    } else if s[i] == 10 {
        i + 1
    } else if is_ws(s[i]) {
        blank_line_end(s, i + 1)
    } else {
        -1
    }
}

pub proof fn lemma_blank_line_end(s: Seq<u8>, i: int)
    requires
        0 <= i <= s.len(),
    ensures
        blank_line_end(s, i) == -1 || i + 1 <= blank_line_end(s, i) <= s.len(),
    decreases s.len() - i,
{
    if i < s.len() && s[i] != 10 && is_ws(s[i]) {
        lemma_blank_line_end(s, i + 1);
    }
}

/// Runs of whitespace-only lines collapsed, each to a single line break.
/// `in_run` records that the previous line was part of such a run, whose
/// single line break has already been written.
pub open spec fn collapse_from(s: Seq<u8>, in_run: bool) -> Seq<u8>
    decreases s.len(),
    via collapse_from_dec
{
    if s.len() == 0 {
        Seq::empty()
    } else {
        let b = blank_line_end(s, 0);
        if b >= 1 {
            (if in_run {
                Seq::<u8>::empty()
            } else {
                seq![10u8]
            }) + collapse_from(s.skip(b), true)
        } else {
            let e = first_nl(s, 0);
            let cut = if e < s.len() {
                e + 1
            } else {
                e
            };
            s.subrange(0, cut) + collapse_from(s.skip(cut), false)
        }
    }
}

#[via_fn]
proof fn collapse_from_dec(s: Seq<u8>, in_run: bool) {
    if s.len() > 0 {
        lemma_blank_line_end(s, 0);
        lemma_first_nl(s, 0);
    }
}

/// Blank-line collapse of a whole text.
pub open spec fn collapse_spec(s: Seq<u8>) -> Seq<u8> {
    collapse_from(s, false)
}

/// A whitespace-only line, closed by its line feed.
pub open spec fn is_blank_line(w: Seq<u8>) -> bool {
    blank_line_end(w, 0) == w.len()
}

/// A single line with some non-whitespace content, closed by its line feed.
pub open spec fn is_content_line(a: Seq<u8>) -> bool {
    a.len() > 0 && a.last() == 10 && (forall|k: int| 0 <= k < a.len() - 1 ==> a[k] != 10) && exists|
        k: int,
    | 0 <= k < a.len() - 1 && !is_ws(a[k])
}

proof fn lemma_first_nl_is(s: Seq<u8>, j: int, e: int)
    requires
        0 <= j <= e < s.len(),
        s[e] == 10,
        forall|k: int| j <= k < e ==> s[k] != 10,
    ensures
        first_nl(s, j) == e,
    decreases e - j,
{
    if j < e {
        lemma_first_nl_is(s, j + 1, e);
    }
}

proof fn lemma_ble_is(s: Seq<u8>, j: int, e: int)
    requires
        0 <= j <= e < s.len(),
        s[e] == 10,
        forall|k: int| j <= k < e ==> is_ws(s[k]) && s[k] != 10,
    ensures
        blank_line_end(s, j) == e + 1,
    decreases e - j,
{
    if j < e {
        lemma_ble_is(s, j + 1, e);
    }
}

proof fn lemma_ble_nonblank(s: Seq<u8>, j: int, k0: int)
    requires
        0 <= j <= k0 < s.len(),
        !is_ws(s[k0]),
        forall|t: int| j <= t < k0 ==> s[t] != 10,
    ensures
        blank_line_end(s, j) == -1,
    decreases k0 - j,
{
    if j < k0 && is_ws(s[j]) {
        lemma_ble_nonblank(s, j + 1, k0);
    }
}

proof fn lemma_ble_chars(w: Seq<u8>, j: int)
    requires
        0 <= j <= w.len(),
        blank_line_end(w, j) != -1,
    ensures
        j < blank_line_end(w, j) <= w.len(),
        w[blank_line_end(w, j) - 1] == 10,
        forall|k: int| j <= k < blank_line_end(w, j) - 1 ==> is_ws(w[k]) && w[k] != 10,
    decreases w.len() - j,
{
    if j < w.len() && w[j] != 10 && is_ws(w[j]) {
        lemma_ble_chars(w, j + 1);
    }
}

/// Blank-line collapse: a run of three whitespace-only lines after a
/// non-blank line, before text that does not open with a blank line,
/// collapses to exactly one line break.
pub proof fn lemma_blank_run_collapses(
    a: Seq<u8>,
    w1: Seq<u8>,
    w2: Seq<u8>,
    w3: Seq<u8>,
    b: Seq<u8>,
)
    requires
        is_content_line(a),
        is_blank_line(w1),
        is_blank_line(w2),
        is_blank_line(w3),
        b.len() == 0 || blank_line_end(b, 0) == -1,
    ensures
        collapse_spec(a + w1 + w2 + w3 + b) == a + seq![10u8] + collapse_spec(b),
{
    let s = a + w1 + w2 + w3 + b;
    lemma_ble_chars(w1, 0);
    lemma_ble_chars(w2, 0);
    lemma_ble_chars(w3, 0);
    let k0 = choose|k: int| 0 <= k < a.len() - 1 && !is_ws(a[k]);
    assert(s[k0] == a[k0]);
    lemma_ble_nonblank(s, 0, k0);
    lemma_first_nl_is(s, 0, a.len() - 1);
    let s1 = s.skip(a.len() as int);
    assert(s1 =~= w1 + w2 + w3 + b);
    assert(s.subrange(0, a.len() as int) =~= a);
    assert(collapse_from(s, false) == a + collapse_from(s1, false));
    lemma_ble_is(s1, 0, w1.len() - 1);
    let s2 = s1.skip(w1.len() as int);
    assert(s2 =~= w2 + w3 + b);
    assert(collapse_from(s1, false) == seq![10u8] + collapse_from(s2, true));
    lemma_ble_is(s2, 0, w2.len() - 1);
    let s3 = s2.skip(w2.len() as int);
    assert(s3 =~= w3 + b);
    assert(Seq::<u8>::empty() + collapse_from(s3, true) =~= collapse_from(s3, true));
    assert(collapse_from(s2, true) == collapse_from(s3, true));
    lemma_ble_is(s3, 0, w3.len() - 1);
    let s4 = s3.skip(w3.len() as int);
    assert(s4 =~= b);
    assert(collapse_from(s3, true) == collapse_from(b, true));
    assert(collapse_from(b, true) == collapse_from(b, false));
    assert(a + (seq![10u8] + collapse_from(b, false)) =~= a + seq![10u8] + collapse_spec(b));
}

proof fn lemma_blank_line_end_shift(s: Seq<u8>, i: int, j: int)
    requires
        0 <= i <= j <= s.len(),
    ensures
        blank_line_end(s.skip(i), j - i) == if blank_line_end(s, j) == -1 {
            -1
        } else {
            blank_line_end(s, j) - i
        },
    decreases s.len() - j,
{
    if j < s.len() {
        assert(s.skip(i)[j - i] == s[j]);
        if s[j] != 10 && is_ws(s[j]) {
            lemma_blank_line_end_shift(s, i, j + 1);
        } else {
            lemma_blank_line_end(s, j);
        }
    }
}

/// Collapses every run of whitespace-only lines into one line break.
pub fn collapse_blank_lines(s: &Vec<u8>) -> (r: Vec<u8>)
    ensures
        r@ == collapse_spec(s@),
{
    let mut out: Vec<u8> = Vec::new();
    let mut in_run: bool = false;
    let mut i: usize = 0;
    proof {
        assert(s@.skip(0) =~= s@);
        assert(out@ + collapse_from(s@, false) =~= collapse_from(s@, false));
    }
    while i < s.len()
        invariant
            i <= s.len(),
            out@ + collapse_from(s@.skip(i as int), in_run) == collapse_spec(s@),
        decreases s.len() - i,
    {
        let ghost pre = s@.skip(i as int);
        let ghost out0 = out@;
        let ghost run0 = in_run;
        // Find the end of a whitespace-only line starting at i, if any.
        let mut j: usize = i;
        let mut blank: bool = false;
        while j < s.len() && !blank && byte_is_ws(s[j]) && s[j] != 10
            invariant
                i <= j <= s.len(),
                !blank,
                blank_line_end(s@, i as int) == blank_line_end(s@, j as int),
            decreases s.len() - j,
        {
            j += 1;
        }
        if j < s.len() && s[j] == 10 {
            blank = true;
            j += 1;
        }
        proof {
            lemma_blank_line_end(s@, i as int);
            lemma_blank_line_end_shift(s@, i as int, i as int);
            if blank {
                assert(blank_line_end(s@, i as int) == j);
                assert(blank_line_end(pre, 0) == j - i);
            } else {
                assert(blank_line_end(s@, i as int) == -1);
                assert(blank_line_end(pre, 0) == -1);
            }
        }
        if blank {
            if !in_run {
                out.push(10);
            }
            in_run = true;
            proof {
                assert(pre.skip(j - i) =~= s@.skip(j as int));
                assert(out@ + collapse_from(s@.skip(j as int), true) =~= out0 + collapse_from(
                    pre,
                    run0,
                ));
            }
            i = j;
        } else {
            // Copy the whole line, including its terminator if present.
            let mut e: usize = i;
            while e < s.len() && s[e] != 10
                invariant
                    i <= e <= s.len(),
                    first_nl(s@, i as int) == first_nl(s@, e as int),
                decreases s.len() - e,
            {
                e += 1;
            }
            proof {
                lemma_first_nl(s@, i as int);
                lemma_first_nl_shift(s@, i as int, i as int);
                assert(first_nl(s@, i as int) == e);
                assert(first_nl(pre, 0) == e - i);
            }
            let cut = if e < s.len() {
                e + 1
            } else {
                e
            };
            let mut k: usize = i;
            while k < cut
                invariant
                    i <= k <= cut <= s.len(),
                    out@ =~= out0 + s@.subrange(i as int, k as int),
                decreases cut - k,
            {
                out.push(s[k]);
                proof {
                    assert(out@ =~= out0 + s@.subrange(i as int, k + 1));
                }
                k += 1;
            }
            in_run = false;
            proof {
                assert(pre.subrange(0, cut - i) =~= s@.subrange(i as int, cut as int));
                assert(pre.skip(cut - i) =~= s@.skip(cut as int));
                assert(out@ + collapse_from(s@.skip(cut as int), false) =~= out0 + collapse_from(
                    pre,
                    run0,
                ));
            }
            i = cut;
        }
    }
    proof {
        assert(s@.skip(i as int) =~= Seq::<u8>::empty());
        assert(out@ + collapse_from(Seq::<u8>::empty(), in_run) =~= out@);
    }
    out
}

pub open spec fn ext_py() -> Seq<u8> {
    seq![112u8, 121u8]
}

pub open spec fn ext_rb() -> Seq<u8> {
    seq![114u8, 98u8]
}

pub open spec fn ext_pl() -> Seq<u8> {
    seq![112u8, 108u8]
}

pub open spec fn ext_sh() -> Seq<u8> {
    seq![115u8, 104u8]
}

pub open spec fn ext_yaml() -> Seq<u8> {
    seq![121u8, 97u8, 109u8, 108u8]
}

pub open spec fn ext_yml() -> Seq<u8> {
    seq![121u8, 109u8, 108u8]
}

pub open spec fn ext_env() -> Seq<u8> {
    seq![101u8, 110u8, 118u8]
}

pub open spec fn ext_toml() -> Seq<u8> {
    seq![116u8, 111u8, 109u8, 108u8]
}

pub open spec fn ext_dockerfile() -> Seq<u8> {
    seq![100u8, 111u8, 99u8, 107u8, 101u8, 114u8, 102u8, 105u8, 108u8, 101u8]
}

pub open spec fn ext_makefile() -> Seq<u8> {
    seq![109u8, 97u8, 107u8, 101u8, 102u8, 105u8, 108u8, 101u8]
}

pub open spec fn ext_php() -> Seq<u8> {
    seq![112u8, 104u8, 112u8]
}

pub open spec fn name_dockerfile() -> Seq<u8> {
    seq![68u8, 111u8, 99u8, 107u8, 101u8, 114u8, 102u8, 105u8, 108u8, 101u8]
}

pub open spec fn name_makefile() -> Seq<u8> {
    seq![77u8, 97u8, 107u8, 101u8, 102u8, 105u8, 108u8, 101u8]
}

/// Lowercased extensions whose files use `#` line comments.
pub open spec fn is_script_ext(e: Seq<u8>) -> bool {
    e == ext_py() || e == ext_rb() || e == ext_pl() || e == ext_sh() || e == ext_yaml() || e
        == ext_yml() || e == ext_env() || e == ext_toml() || e == ext_dockerfile() || e
        == ext_makefile()
}

/// The style family of a file, from its lowercased extension (empty when the
/// file has none) and its exact file name.
pub open spec fn classify_spec(ext_lower: Seq<u8>, file_name: Seq<u8>) -> Style {
    if is_script_ext(ext_lower) {
        Style::ScriptStyle
    } else if ext_lower == ext_php() {
        Style::PhpStyle
    } else if file_name == name_dockerfile() || file_name == name_makefile() {
        Style::ScriptStyle
    } else {
        Style::CStyle
    }
}

pub fn classify_style(ext_lower: &Vec<u8>, file_name: &Vec<u8>) -> (r: Style)
    ensures
        r == classify_spec(ext_lower@, file_name@),
{
    let py = vec![112u8, 121u8];
    let rb = vec![114u8, 98u8];
    let pl = vec![112u8, 108u8];
    let sh = vec![115u8, 104u8];
    let yaml = vec![121u8, 97u8, 109u8, 108u8];
    let yml = vec![121u8, 109u8, 108u8];
    let env = vec![101u8, 110u8, 118u8];
    let toml = vec![116u8, 111u8, 109u8, 108u8];
    let dkr = vec![100u8, 111u8, 99u8, 107u8, 101u8, 114u8, 102u8, 105u8, 108u8, 101u8];
    let mkf = vec![109u8, 97u8, 107u8, 101u8, 102u8, 105u8, 108u8, 101u8];
    let php = vec![112u8, 104u8, 112u8];
    let dkr_name = vec![68u8, 111u8, 99u8, 107u8, 101u8, 114u8, 102u8, 105u8, 108u8, 101u8];
    let mkf_name = vec![77u8, 97u8, 107u8, 101u8, 102u8, 105u8, 108u8, 101u8];
    proof {
        assert(py@ =~= ext_py());
        assert(rb@ =~= ext_rb());
        assert(pl@ =~= ext_pl());
        assert(sh@ =~= ext_sh());
        assert(yaml@ =~= ext_yaml());
        assert(yml@ =~= ext_yml());
        assert(env@ =~= ext_env());
        assert(toml@ =~= ext_toml());
        assert(dkr@ =~= ext_dockerfile());
        assert(mkf@ =~= ext_makefile());
        assert(php@ =~= ext_php());
        assert(dkr_name@ =~= name_dockerfile());
        assert(mkf_name@ =~= name_makefile());
    }
    if crate::text::bytes_eq(ext_lower, &py) || crate::text::bytes_eq(ext_lower, &rb)
        || crate::text::bytes_eq(ext_lower, &pl) || crate::text::bytes_eq(ext_lower, &sh)
        || crate::text::bytes_eq(ext_lower, &yaml) || crate::text::bytes_eq(ext_lower, &yml)
        || crate::text::bytes_eq(ext_lower, &env) || crate::text::bytes_eq(ext_lower, &toml)
        || crate::text::bytes_eq(ext_lower, &dkr) || crate::text::bytes_eq(ext_lower, &mkf) {
        Style::ScriptStyle
    } else if crate::text::bytes_eq(ext_lower, &php) {
        Style::PhpStyle
    } else if crate::text::bytes_eq(file_name, &dkr_name) || crate::text::bytes_eq(
        file_name,
        &mkf_name,
    ) {
        Style::ScriptStyle
    } else {
        Style::CStyle
    }
}

/// The sanitizer's full contract: unchanged text when cleaning is off or the
/// style strips nothing; otherwise comment removal, then blank-line collapse,
/// then a whole-text trim.
pub open spec fn sanitize_spec(s: Seq<u8>, st: Style, clean: bool) -> Seq<u8> {
    if !clean || st == Style::Plain {
        s
    } else {
        trim_spec(collapse_spec(strip_comments_spec(st, s)))
    }
}

pub fn sanitize_content(text: &Vec<u8>, st: Style, clean: bool) -> (r: Vec<u8>)
    ensures
        r@ == sanitize_spec(text@, st, clean),
{
    let plain = match st {
        Style::Plain => true,
        _ => false,
    };
    if !clean || plain {
        return crate::text::copy_bytes(text);
    }
    let stripped = strip_comments(text, st);
    let collapsed = collapse_blank_lines(&stripped);
    trim_bytes(&collapsed)
}

/// The inside of a protected literal with delimiter `d`: a sequence of units,
/// each either an escape pair or a single byte other than the delimiter.
pub open spec fn wf_lit_body(body: Seq<u8>, d: u8) -> bool
    decreases body.len(),
{
    if body.len() == 0 {
        true
    } else if body[0] == 92 {
        body.len() >= 2 && wf_lit_body(body.skip(2), d)
    } else {
        body[0] != d && wf_lit_body(body.drop_first(), d)
    }
}

/// A complete protected literal for the style: an opening delimiter, a
/// well-formed body, and the matching closing delimiter.
pub open spec fn is_literal_span(lit: Seq<u8>, st: Style) -> bool {
    lit.len() >= 2 && lit_open(st, lit[0]) && lit[lit.len() - 1] == lit[0] && wf_lit_body(
        lit.subrange(1, lit.len() - 1),
        lit[0],
    )
}

proof fn lemma_lit_scan(st: Style, body: Seq<u8>, d: u8, rest: Seq<u8>)
    requires
        wf_lit_body(body, d),
        d != 92,
    ensures
        scan(st, body + seq![d] + rest, ScanState::InLit(d)) == body + seq![d] + scan(
            st,
            rest,
            ScanState::Normal,
        ),
    decreases body.len(),
{
    let s = body + seq![d] + rest;
    let tail = scan(st, rest, ScanState::Normal);
    if body.len() == 0 {
        assert(s =~= seq![d] + rest);
        assert(s[0] == d);
        assert(s.drop_first() =~= rest);
        assert(body + seq![d] + tail =~= seq![d] + tail);
    } else if body[0] == 92 {
        assert(s[0] == 92);
        assert(s.len() >= 2);
        assert(s.subrange(0, 2) =~= body.subrange(0, 2));
        assert(s.skip(2) =~= body.skip(2) + seq![d] + rest);
        lemma_lit_scan(st, body.skip(2), d, rest);
        assert(body.subrange(0, 2) + (body.skip(2) + seq![d] + tail) =~= body + seq![d] + tail);
    } else {
        assert(s[0] == body[0]);
        assert(s.drop_first() =~= body.drop_first() + seq![d] + rest);
        lemma_lit_scan(st, body.drop_first(), d, rest);
        assert(seq![body[0]] + (body.drop_first() + seq![d] + tail) =~= body + seq![d] + tail);
    }
}

/// Literal preservation: a protected literal at the head of the text
/// survives comment removal byte for byte, whatever follows it — even when
/// its contents look like a comment opener.
pub proof fn lemma_literal_preserved(st: Style, lit: Seq<u8>, rest: Seq<u8>)
    requires
        is_literal_span(lit, st),
    ensures
        strip_comments_spec(st, lit + rest) == lit + strip_comments_spec(st, rest),
{
    let d = lit[0];
    let body = lit.subrange(1, lit.len() - 1);
    let s = lit + rest;
    let tail = scan(st, rest, ScanState::Normal);
    assert(s[0] == d);
    assert(d != 92);
    assert(s.drop_first() =~= body + seq![d] + rest);
    lemma_lit_scan(st, body, d, rest);
    assert(seq![d] + (body + seq![d] + tail) =~= lit + tail);
}

} // verus!
