//! The chunked aggregator. Per-file pieces (a header line plus sanitized
//! content) accumulate in a buffer seeded with the directory-tree preamble;
//! whenever appending the next piece would push a non-empty buffer past the
//! byte limit, the buffer is emitted as a chunk and a fresh one is started.
//! A single oversized piece is allowed to occupy a chunk by itself rather
//! than being split.
use crate::sanitize::{sanitize_spec, Style};
use crate::text::{append_bytes, copy_bytes};
use vstd::prelude::*;

verus! {

/// One output file: its 1-based part number and its bytes.
pub struct Chunk {
    pub index: usize,
    pub data: Vec<u8>,
}

/// Concatenation of a sequence of byte strings.
pub open spec fn concat_of(ss: Seq<Seq<u8>>) -> Seq<u8>
    decreases ss.len(),
{
    if ss.len() == 0 {
        Seq::empty()
    } else {
        ss[0] + concat_of(ss.drop_first())
    }
}

pub proof fn lemma_concat_push(ss: Seq<Seq<u8>>, x: Seq<u8>)
    ensures
        concat_of(ss.push(x)) == concat_of(ss) + x,
    decreases ss.len(),
{
    if ss.len() == 0 {
        assert(ss.push(x)[0] == x);
        assert(ss.push(x).drop_first() =~= Seq::<Seq<u8>>::empty());
        assert(concat_of(Seq::<Seq<u8>>::empty()) == Seq::<u8>::empty());
        assert(concat_of(ss.push(x)) == x + Seq::<u8>::empty());
        assert(x + Seq::<u8>::empty() =~= x);
        assert(Seq::<u8>::empty() + x =~= x);
        assert(concat_of(ss.push(x)) =~= concat_of(ss) + x);
    } else {
        assert(ss.push(x).drop_first() =~= ss.drop_first().push(x));
        assert(ss.push(x)[0] == ss[0]);
        lemma_concat_push(ss.drop_first(), x);
        assert(ss[0] + (concat_of(ss.drop_first()) + x) =~= (ss[0] + concat_of(ss.drop_first()))
            + x);
        assert(concat_of(ss.push(x)) =~= concat_of(ss) + x);
    }
}

/// Total length of a sequence of byte strings.
pub open spec fn sum_lens(ss: Seq<Seq<u8>>) -> int
    decreases ss.len(),
{
    if ss.len() == 0 {
        0
    } else {
        ss[0].len() + sum_lens(ss.drop_first())
    }
}

pub proof fn lemma_concat_len(ss: Seq<Seq<u8>>)
    ensures
        concat_of(ss).len() == sum_lens(ss),
    decreases ss.len(),
{
    if ss.len() > 0 {
        lemma_concat_len(ss.drop_first());
    }
}

/// Chunk sizes conserve bytes: however the pieces were cut into chunks, the
/// chunk lengths sum to the preamble's length plus the pieces' lengths.
pub proof fn lemma_chunk_bytes_conserved(datas: Seq<Seq<u8>>, preamble: Seq<u8>, pieces: Seq<
    Seq<u8>,
>)
    requires
        concat_of(datas) == preamble + concat_of(pieces),
    ensures
        sum_lens(datas) == preamble.len() + sum_lens(pieces),
{
    lemma_concat_len(datas);
    lemma_concat_len(pieces);
}

/// `PROJECT STRUCTURE: ` followed by an opening quote.
pub open spec fn preamble_title() -> Seq<u8> {
    seq![
        80u8, 82u8, 79u8, 74u8, 69u8, 67u8, 84u8, 32u8, 83u8, 84u8, 82u8, 85u8, 67u8, 84u8, 85u8,
        82u8, 69u8, 58u8, 32u8, 34u8,
    ]
}

/// The banner line: forty-two equals signs and a line break.
pub open spec fn banner_line() -> Seq<u8> {
    Seq::new(42, |i: int| 61u8).push(10u8)
}

/// The first chunk's preamble: the title line naming the root, a banner,
/// the tree listing, and a closing banner.
pub open spec fn preamble_spec(root: Seq<u8>, tree: Seq<u8>) -> Seq<u8> {
    preamble_title() + root + seq![34u8, 10u8] + banner_line() + tree + seq![10u8] + banner_line()
        + seq![10u8]
}

/// Builds the preamble that seeds the first chunk from the root path and
/// the rendered tree listing.
pub fn make_preamble(root: &Vec<u8>, tree: &Vec<u8>) -> (r: Vec<u8>)
    ensures
        r@ == preamble_spec(root@, tree@),
{
    let mut r = vec![
        80u8, 82u8, 79u8, 74u8, 69u8, 67u8, 84u8, 32u8, 83u8, 84u8, 82u8, 85u8, 67u8, 84u8, 85u8,
        82u8, 69u8, 58u8, 32u8, 34u8,
    ];
    proof {
        assert(r@ =~= preamble_title());
    }
    append_bytes(&mut r, root);
    r.push(34);
    r.push(10);
    let mut banner: Vec<u8> = Vec::new();
    let mut i: usize = 0;
    while i < 42
        invariant
            i <= 42,
            banner@.len() == i,
            forall|k: int| 0 <= k < i ==> banner@[k] == 61u8,
        decreases 42 - i,
    {
        banner.push(61);
        i += 1;
    }
    banner.push(10);
    proof {
        assert(banner@ =~= banner_line());
    }
    append_bytes(&mut r, &banner);
    append_bytes(&mut r, tree);
    r.push(10);
    append_bytes(&mut r, &banner);
    r.push(10);
    proof {
        assert(r@ =~= preamble_spec(root@, tree@));
    }
    r
}

pub open spec fn header_prefix() -> Seq<u8> {
    seq![10u8, 45u8, 45u8, 45u8, 32u8, 70u8, 73u8, 76u8, 69u8, 58u8, 32u8, 34u8]
}

pub open spec fn header_suffix() -> Seq<u8> {
    seq![34u8, 32u8, 45u8, 45u8, 45u8, 10u8]
}

/// The header line written before a file's content: a blank line, then
/// `--- FILE: "<path>" ---`.
pub open spec fn header_of(path: Seq<u8>) -> Seq<u8> {
    header_prefix() + path + header_suffix()
}

pub fn make_header(path: &Vec<u8>) -> (r: Vec<u8>)
    ensures
        r@ == header_of(path@),
{
    let mut r = vec![10u8, 45u8, 45u8, 45u8, 32u8, 70u8, 73u8, 76u8, 69u8, 58u8, 32u8, 34u8];
    proof {
        assert(r@ =~= header_prefix());
    }
    append_bytes(&mut r, path);
    let mut tail = vec![34u8, 32u8, 45u8, 45u8, 45u8, 10u8];
    proof {
        assert(tail@ =~= header_suffix());
    }
    append_bytes(&mut r, &tail);
    proof {
        assert(r@ =~= header_of(path@));
    }
    r
}

/// The bytes a file contributes to the dump: its header, its sanitized
/// content and a trailing line break — or nothing at all when sanitizing
/// left the content empty.
pub fn file_piece(path: &Vec<u8>, raw: &Vec<u8>, st: Style, clean: bool) -> (r: Option<Vec<u8>>)
    ensures
        match r {
            Option::Some(p) => sanitize_spec(raw@, st, clean).len() > 0 && p@ == header_of(path@)
                + sanitize_spec(raw@, st, clean) + seq![10u8],
            Option::None => sanitize_spec(raw@, st, clean).len() == 0,
        },
{
    let content = crate::sanitize::sanitize_content(raw, st, clean);
    if content.len() == 0 {
        return Option::None;
    }
    let mut p = make_header(path);
    append_bytes(&mut p, &content);
    p.push(10);
    proof {
        assert(p@ =~= header_of(path@) + sanitize_spec(raw@, st, clean) + seq![10u8]);
    }
    Option::Some(p)
}

/// Cuts the preamble and the pieces into chunks. Every chunk stays within
/// the byte limit unless it holds nothing but the preamble or nothing but a
/// single oversized piece; no byte is lost, duplicated or reordered; part
/// numbers count up from 1.
pub fn build_chunks(preamble: &Vec<u8>, pieces: &Vec<Vec<u8>>, limit: usize) -> (r: Vec<Chunk>)
    requires
        pieces@.len() < usize::MAX - 1,
    ensures
        forall|k: int| 0 <= k < r@.len() ==> (#[trigger] r@[k]).index == k + 1,
        concat_of(r@.map_values(|c: Chunk| c.data@)) == preamble@ + concat_of(
            pieces@.map_values(|p: Vec<u8>| p@),
        ),
        forall|k: int|
            0 <= k < r@.len() ==> (#[trigger] r@[k]).data@.len() <= limit || r@[k].data@
                == preamble@ || exists|j: int| 0 <= j < pieces@.len() && r@[k].data@ == pieces@[j]@,
        preamble@.len() > 0 ==> r@.len() >= 1,
{
    let ghost piece_views = pieces@.map_values(|p: Vec<u8>| p@);
    let mut chunks: Vec<Chunk> = Vec::new();
    let mut buf: Vec<u8> = copy_bytes(preamble);
    let mut next_index: usize = 1;
    let mut i: usize = 0;
    proof {
        assert(chunks@.map_values(|c: Chunk| c.data@) =~= Seq::<Seq<u8>>::empty());
        assert(piece_views.subrange(0, 0) =~= Seq::<Seq<u8>>::empty());
        assert(concat_of(Seq::<Seq<u8>>::empty()) + buf@ =~= preamble@ + concat_of(
            Seq::<Seq<u8>>::empty(),
        ));
    }
    while i < pieces.len()
        invariant
            i <= pieces.len(),
            piece_views == pieces@.map_values(|p: Vec<u8>| p@),
            next_index == chunks@.len() + 1,
            next_index <= i + 2,
            pieces@.len() < usize::MAX - 1,
            forall|k: int| 0 <= k < chunks@.len() ==> (#[trigger] chunks@[k]).index == k + 1,
            concat_of(chunks@.map_values(|c: Chunk| c.data@)) + buf@ == preamble@ + concat_of(
                piece_views.subrange(0, i as int),
            ),
            forall|k: int|
                0 <= k < chunks@.len() ==> (#[trigger] chunks@[k]).data@.len() <= limit
                    || chunks@[k].data@ == preamble@ || exists|j: int|
                    0 <= j < piece_views.len() && chunks@[k].data@ == piece_views[j],
            buf@.len() <= limit || buf@ == preamble@ || exists|j: int|
                0 <= j < piece_views.len() && buf@ == piece_views[j],
            preamble@.len() > 0 ==> chunks@.len() >= 1 || buf@.len() > 0,
        decreases pieces.len() - i,
    {
        let ghost datas0 = chunks@.map_values(|c: Chunk| c.data@);
        let piece_len = pieces[i].len();
        let over = if buf.len() > limit {
            true
        } else {
            piece_len > limit - buf.len()
        };
        if buf.len() > 0 && over {
            let ghost bufv = buf@;
            let full = buf;
            buf = Vec::new();
            chunks.push(Chunk { index: next_index, data: full });
            next_index += 1;
            proof {
                assert(chunks@.map_values(|c: Chunk| c.data@) =~= datas0.push(bufv));
                lemma_concat_push(datas0, bufv);
            }
        }
        let ghost datas1 = chunks@.map_values(|c: Chunk| c.data@);
        let ghost buf1 = buf@;
        proof {
            if buf1.len() == 0 {
                assert(concat_of(datas1) + buf1 =~= concat_of(datas1));
            }
            assert(concat_of(datas1) + buf1 == preamble@ + concat_of(
                piece_views.subrange(0, i as int),
            ));
        }
        append_bytes(&mut buf, &pieces[i]);
        proof {
            let subi = piece_views.subrange(0, i as int);
            let p = piece_views[i as int];
            assert(p == pieces@[i as int]@);
            assert(buf@ == buf1 + p);
            assert(piece_views.subrange(0, i + 1) =~= subi.push(p));
            lemma_concat_push(subi, p);
            assert(concat_of(piece_views.subrange(0, i + 1)) == concat_of(subi) + p);
            assert(concat_of(datas1) + (buf1 + p) =~= (concat_of(datas1) + buf1) + p);
            assert(preamble@ + (concat_of(subi) + p) =~= (preamble@ + concat_of(subi)) + p);
            assert(concat_of(datas1) + buf@ == preamble@ + concat_of(
                piece_views.subrange(0, i + 1),
            ));
            if buf1.len() == 0 {
                assert(buf@ =~= p);
            }
        }
        i += 1;
    }
    if buf.len() > 0 {
        let ghost datas0 = chunks@.map_values(|c: Chunk| c.data@);
        let ghost bufv = buf@;
        chunks.push(Chunk { index: next_index, data: buf });
        proof {
            assert(chunks@.map_values(|c: Chunk| c.data@) =~= datas0.push(bufv));
            lemma_concat_push(datas0, bufv);
            assert(concat_of(chunks@.map_values(|c: Chunk| c.data@)) =~= preamble@ + concat_of(
                piece_views.subrange(0, i as int),
            ));
        }
    }
    proof {
        assert(piece_views.subrange(0, i as int) =~= piece_views);
        if buf@.len() == 0 {
            assert(concat_of(chunks@.map_values(|c: Chunk| c.data@)) + buf@ =~= concat_of(
                chunks@.map_values(|c: Chunk| c.data@),
            ));
        }
    }
    chunks
}

} // verus!
