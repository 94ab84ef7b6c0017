//! Output-name resolution and the destructive-deletion guard. An output
//! pattern may hold a `{type}` placeholder (replaced by the display
//! extension) and a `*` wildcard (replaced by the chunk index); without a
//! wildcard, `_<index>` is inserted before the pattern's extension. The
//! guard decides whether the output directory may be wiped: never when it is
//! the source root or an ancestor of it.
use crate::select::last_dot_from;
use crate::text::{
    append_bytes, bytes_eq, copy_bytes, copy_range, dec_digits, find_first_sub, first_sub_at,
    lemma_first_sub_at, match_at, usize_to_dec,
};
use vstd::prelude::*;

verus! {

/// `s` with every occurrence of `pat` replaced by `rep`, scanning left to
/// right and continuing after each replacement.
pub open spec fn replace_all(s: Seq<u8>, pat: Seq<u8>, rep: Seq<u8>) -> Seq<u8>
    decreases s.len(),
    via replace_all_dec
{
    if pat.len() == 0 {
        s
    } else {
        let m = first_sub_at(s, pat, 0);
        if m < 0 {
            s
        } else {
            s.subrange(0, m) + rep + replace_all(s.skip(m + pat.len()), pat, rep)
        }
    }
}

#[via_fn]
proof fn replace_all_dec(s: Seq<u8>, pat: Seq<u8>, rep: Seq<u8>) {
    if pat.len() > 0 {
        lemma_first_sub_at(s, pat, 0);
    }
}

pub fn replace_all_bytes(s: &Vec<u8>, pat: &Vec<u8>, rep: &Vec<u8>) -> (r: Vec<u8>)
    requires
        pat.len() > 0,
    ensures
        r@ == replace_all(s@, pat@, rep@),
    decreases s@.len(),
{
    match find_first_sub(s, pat) {
        Option::None => copy_bytes(s),
        Option::Some(m) => {
            let mut r = copy_range(s, 0, m);
            append_bytes(&mut r, rep);
            let tail = copy_range(s, m + pat.len(), s.len());
            let sub = replace_all_bytes(&tail, pat, rep);
            append_bytes(&mut r, &sub);
            proof {
                assert(r@ =~= replace_all(s@, pat@, rep@));
            }
            r
        },
    }
}

/// The `{type}` placeholder.
pub open spec fn type_token() -> Seq<u8> {
    seq![123u8, 116u8, 121u8, 112u8, 101u8, 125u8]
}

/// Index of the last slash at or before `i`, or -1.
pub open spec fn last_slash_from(p: Seq<u8>, i: int) -> int
    decreases i + 1,
{
    if i < 0 || i >= p.len() {
        -1
    } else if p[i] == 47 {
        i
    } else {
        last_slash_from(p, i - 1)
    }
}

/// Resolution of the output pattern for one chunk: `{type}` becomes the
/// display extension; then a `*` wildcard becomes the decimal index;
/// without a wildcard, `_<index>` is inserted before the file name's
/// extension, or appended when the name has none.
pub open spec fn resolve_spec(pattern: Seq<u8>, ext: Seq<u8>, idx: nat) -> Seq<u8> {
    let p2 = replace_all(pattern, type_token(), ext);
    if p2.contains(42u8) {
        replace_all(p2, seq![42u8], dec_digits(idx))
    } else {
        let sl = last_slash_from(p2, p2.len() - 1);
        let dir = p2.subrange(0, sl + 1);
        let name = p2.skip(sl + 1);
        let d = last_dot_from(name, name.len() - 1);
        if d > 0 && d < name.len() - 1 {
            dir + name.subrange(0, d) + seq![95u8] + dec_digits(idx) + seq![46u8] + name.skip(d + 1)
        } else if d > 0 {
            dir + name.subrange(0, d) + seq![95u8] + dec_digits(idx)
        } else {
            dir + name + seq![95u8] + dec_digits(idx)
        }
    }
}

/// Resolves the output pattern into the concrete file name of one chunk.
pub fn resolve_output_name(pattern: &Vec<u8>, ext: &Vec<u8>, index: usize) -> (r: Vec<u8>)
    ensures
        r@ == resolve_spec(pattern@, ext@, index as nat),
{
    let token = vec![123u8, 116u8, 121u8, 112u8, 101u8, 125u8];
    proof {
        assert(token@ =~= type_token());
    }
    let p2 = replace_all_bytes(pattern, &token, ext);
    let digits = usize_to_dec(index);
    if crate::select::contains_byte(&p2, 42) {
        let star = vec![42u8];
        proof {
            assert(star@ =~= seq![42u8]);
        }
        return replace_all_bytes(&p2, &star, &digits);
    }
    // Find the last slash, splitting directory part from file name.
    let mut sl: usize = p2.len();
    let mut found_slash = false;
    while sl > 0 && !found_slash
        invariant
            sl <= p2.len(),
            !found_slash ==> last_slash_from(p2@, p2@.len() - 1) == last_slash_from(p2@, sl - 1),
            found_slash ==> 0 < sl <= p2.len() && last_slash_from(p2@, p2@.len() - 1) == sl - 1,
        decreases sl + (if found_slash {
            0int
        } else {
            1int
        }),
    {
        if p2[sl - 1] == 47 {
            found_slash = true;
        } else {
            sl -= 1;
        }
    }
    let ghost slv = last_slash_from(p2@, p2@.len() - 1);
    proof {
        if !found_slash {
            assert(last_slash_from(p2@, -1) == -1);
            assert(sl == 0 && slv == -1);
        } else {
            assert(slv == sl - 1);
        }
        assert(sl == slv + 1);
    }
    let mut r = copy_range(&p2, 0, sl);
    let name = copy_range(&p2, sl, p2.len());
    proof {
        assert(name@ =~= p2@.skip(slv + 1));
    }
    // Find the last dot in the name.
    let mut di: usize = name.len();
    let mut found_dot = false;
    while di > 0 && !found_dot
        invariant
            di <= name.len(),
            !found_dot ==> last_dot_from(name@, name@.len() - 1) == last_dot_from(name@, di - 1),
            found_dot ==> 0 < di <= name.len() && last_dot_from(name@, name@.len() - 1) == di - 1,
        decreases di + (if found_dot {
            0int
        } else {
            1int
        }),
    {
        if name[di - 1] == 46 {
            found_dot = true;
        } else {
            di -= 1;
        }
    }
    let ghost dv = last_dot_from(name@, name@.len() - 1);
    proof {
        if !found_dot {
            assert(last_dot_from(name@, -1) == -1);
            assert(dv == -1);
        } else {
            assert(dv == di - 1);
        }
    }
    if found_dot && di - 1 > 0 {
        let stem = copy_range(&name, 0, di - 1);
        append_bytes(&mut r, &stem);
        r.push(95);
        append_bytes(&mut r, &digits);
        if di < name.len() {
            r.push(46);
            let tail = copy_range(&name, di, name.len());
            append_bytes(&mut r, &tail);
            proof {
                assert(tail@ =~= name@.skip(dv + 1));
                assert(r@ =~= resolve_spec(pattern@, ext@, index as nat));
            }
        } else {
            proof {
                assert(dv == name@.len() - 1);
                assert(r@ =~= resolve_spec(pattern@, ext@, index as nat));
            }
        }
    } else {
        append_bytes(&mut r, &name);
        r.push(95);
        append_bytes(&mut r, &digits);
        proof {
            assert(dv <= 0);
            assert(r@ =~= resolve_spec(pattern@, ext@, index as nat));
        }
    }
    r
}

/// Component-wise prefix on canonical absolute paths: `anc` is the same
/// path as `child` or an ancestor directory of it.
pub open spec fn path_starts_with(child: Seq<u8>, anc: Seq<u8>) -> bool {
    child == anc || (anc.len() < child.len() && child.subrange(0, anc.len() as int) == anc && (
    child[anc.len() as int] == 47 || (anc.len() > 0 && anc[anc.len() - 1] == 47)))
}

/// The guard's rule: the output directory may be wiped only when it is
/// neither the source root nor an ancestor of it.
pub open spec fn deletion_safe_spec(abs_out: Seq<u8>, abs_src: Seq<u8>) -> bool {
    abs_out != abs_src && !path_starts_with(abs_src, abs_out)
}

/// Decides whether wiping the output directory can touch the source tree.
/// Both arguments must be canonical absolute paths; when canonicalization
/// fails the caller must treat the wipe as unsafe and skip it.
pub fn deletion_is_safe(abs_out: &Vec<u8>, abs_src: &Vec<u8>) -> (r: bool)
    ensures
        r == deletion_safe_spec(abs_out@, abs_src@),
{
    if bytes_eq(abs_out, abs_src) {
        return false;
    }
    if abs_out.len() < abs_src.len() && match_at(abs_src, abs_out, 0) {
        proof {
            assert(abs_src@.subrange(0, abs_out@.len() as int) == abs_out@);
        }
        let boundary = abs_src[abs_out.len()] == 47 || (abs_out.len() > 0 && abs_out[abs_out.len()
            - 1] == 47);
        if boundary {
            return false;
        }
    }
    true
}

/// The destructive-deletion guard never allows wiping a directory that is
/// the source root or an ancestor of it.
pub proof fn lemma_guard_blocks_ancestor(abs_out: Seq<u8>, abs_src: Seq<u8>)
    requires
        path_starts_with(abs_src, abs_out),
    ensures
        !deletion_safe_spec(abs_out, abs_src),
{
}

} // verus!
