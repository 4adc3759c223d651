//! Properties of the decoder that hold for every input, stated and proved
//! over the same model that the contracts of `imageio` use.

use crate::imageio::{
    apply_tokens, decoded_pixels, is_comment, lemma_line_end, lemma_token_end, lines_from,
    next_line_start, parse_lines, pixel_at, skip_lines, token_end, token_split, HeaderFields,
    SPACE,
};
use crate::ppm::{ImageError, Pixel};
use vstd::prelude::*;

verus! {

/// Consumed-line accounting is consistent between the two components: `n`
/// line-based reads from the start reposition to the byte just after the
/// first `n` lines, so the lines that remain there are exactly the lines
/// after the first `n`. In particular, skipping the count that the header
/// reader returns leaves the input positioned at the first payload byte.
pub proof fn lemma_skip_lines_consumes_lines(s: Seq<u8>, pos: int, n: nat)
    requires
        0 <= pos <= s.len(),
        n <= lines_from(s, pos).len(),
    ensures
        lines_from(s, skip_lines(s, pos, n)) == lines_from(s, pos).skip(n as int),
    decreases n,
{
    if n == 0 {
        assert(lines_from(s, pos).skip(0) =~= lines_from(s, pos));
    } else {
        assert(lines_from(s, pos).len() > 0);
        assert(pos < s.len());
        lemma_line_end(s, pos);
        let next = next_line_start(s, pos);
        lemma_skip_lines_consumes_lines(s, next, (n - 1) as nat);
        assert(lines_from(s, pos).skip(n as int) =~= lines_from(s, next).skip(n - 1));
    }
}

/// The 8-bit encoding of a pixel sequence: 3 bytes per pixel, one per
/// channel, red first.
pub open spec fn encode_8bit(ps: Seq<Pixel>) -> Seq<u8>
    decreases ps.len()
{
    if ps.len() == 0 {
        Seq::empty()
    } else {
        encode_8bit(ps.drop_last()) + seq![
            ps.last().r as u8,
            ps.last().g as u8,
            ps.last().b as u8,
        ]
    }
}

/// Round-trip shape: re-encoding the pixels that an 8-bit payload decodes to
/// reproduces that payload byte for byte.
pub proof fn lemma_round_trip_8bit(s: Seq<u8>, p0: int, count: int)
    requires
        0 <= p0,
        0 <= count,
        p0 + 3 * count <= s.len(),
    ensures
        encode_8bit(decoded_pixels(s, p0, 255, count)) == s.subrange(p0, p0 + 3 * count),
    decreases count,
{
    let ps = decoded_pixels(s, p0, 255, count);
    if count == 0 {
        assert(encode_8bit(ps) =~= s.subrange(p0, p0));
    } else {
        lemma_round_trip_8bit(s, p0, count - 1);
        assert(ps.drop_last() =~= decoded_pixels(s, p0, 255, count - 1));
        assert(ps.last() == pixel_at(s, p0, 255, count - 1));
        assert(encode_8bit(ps) =~= s.subrange(p0, p0 + 3 * count));
    }
}

/// Whether two header reader outcomes agree on everything but the number of
/// lines consumed: the same populated fields, or the same error.
pub open spec fn same_fields(
    a: Result<(HeaderFields, nat), ImageError>,
    b: Result<(HeaderFields, nat), ImageError>,
) -> bool {
    match (a, b) {
        (Ok((h1, _)), Ok((h2, _))) => h1 == h2,
        (Err(e1), Err(e2)) => e1 == e2,
        _ => false,
    }
}

/// Comment skipping: inserting a full comment line anywhere into the header
/// lines changes neither the populated fields nor the error, only how many
/// lines are consumed.
pub proof fn lemma_comment_insertion(
    ls: Seq<Seq<u8>>,
    i: int,
    c: Seq<u8>,
    k: int,
    h: HeaderFields,
)
    requires
        0 <= i <= ls.len(),
        is_comment(c),
    ensures
        same_fields(parse_lines(ls.insert(i, c), k, h), parse_lines(ls, k, h)),
    decreases i,
{
    let ls2 = ls.insert(i, c);
    if i == 0 {
        assert(ls2[0] == c);
        assert(ls2.drop_first() =~= ls);
    } else {
        assert(ls2[0] == ls[0]);
        assert(ls2.drop_first() =~= ls.drop_first().insert(i - 1, c));
        if is_comment(ls[0]) {
            lemma_comment_insertion(ls.drop_first(), i - 1, c, k, h);
        } else {
            match apply_tokens(token_split(ls[0]), k, h) {
                Err(_) => {},
                Ok((k2, h2)) => {
                    if k2 < 4 {
                        lemma_comment_insertion(ls.drop_first(), i - 1, c, k2, h2);
                    }
                },
            }
        }
    }
}

proof fn lemma_token_end_join(la: Seq<u8>, lb: Seq<u8>, j: int)
    requires
        0 <= j <= la.len(),
    ensures
        ({
            let joined = la + seq![SPACE] + lb;
            if token_end(la, j) < la.len() {
                token_end(joined, j) == token_end(la, j)
            } else {
                token_end(joined, j) == la.len()
            }
        }),
    decreases la.len() - j,
{
    let joined = la + seq![SPACE] + lb;
    if j == la.len() {
        assert(joined[j] == SPACE);
    } else {
        assert(joined[j] == la[j]);
        if la[j] != SPACE {
            lemma_token_end_join(la, lb, j + 1);
        }
    }
}

proof fn lemma_token_split_join(la: Seq<u8>, lb: Seq<u8>)
    ensures
        token_split(la + seq![SPACE] + lb) == token_split(la) + token_split(lb),
    decreases la.len(),
{
    let joined = la + seq![SPACE] + lb;
    lemma_token_end_join(la, lb, 0);
    lemma_token_end(la, 0);
    lemma_token_end(joined, 0);
    let e = token_end(la, 0);
    if e == la.len() {
        assert(token_end(joined, 0) == la.len());
        assert(la.len() < joined.len());
        assert(joined.subrange(0, la.len() as int) =~= la);
        assert(joined.subrange(la.len() as int + 1, joined.len() as int) =~= lb);
        assert(token_split(joined) == seq![la].add(token_split(lb)));
        assert(seq![la].add(token_split(lb)) =~= token_split(la) + token_split(lb));
    } else {
        assert(token_end(joined, 0) == e);
        assert(e < joined.len());
        assert(joined.subrange(0, e) =~= la.subrange(0, e));
        let la2 = la.subrange(e + 1, la.len() as int);
        assert(joined.subrange(e + 1, joined.len() as int) =~= la2 + seq![SPACE] + lb);
        lemma_token_split_join(la2, lb);
        assert(token_split(joined) == seq![la.subrange(0, e)].add(
            token_split(la2) + token_split(lb),
        ));
        assert(seq![la.subrange(0, e)].add(token_split(la2) + token_split(lb)) =~= (seq![
            la.subrange(0, e),
        ].add(token_split(la2))) + token_split(lb));
    }
}

proof fn lemma_apply_tokens_concat(a: Seq<Seq<u8>>, b: Seq<Seq<u8>>, k: int, h: HeaderFields)
    ensures
        apply_tokens(a + b, k, h) == (match apply_tokens(a, k, h) {
            Ok((k2, h2)) => apply_tokens(b, k2, h2),
            Err(e) => Err(e),
        }),
    decreases a.len(),
{
    if a.len() == 0 {
        assert(a + b =~= b);
    } else if k >= 4 {
        assert((a + b).len() > 0);
    } else {
        assert((a + b)[0] == a[0]);
        assert((a + b).len() > 0);
        assert((a + b).drop_first() =~= a.drop_first() + b);
        let t = a[0];
        if k == 0 {
            lemma_apply_tokens_concat(
                a.drop_first(),
                b,
                1,
                HeaderFields { magic: t, width: h.width, height: h.height, maxc: h.maxc },
            );
        } else if crate::imageio::is_numeric_token(t) {
            let v = crate::imageio::numeric_value(t) as u32;
            let h2 = if k == 1 {
                HeaderFields { magic: h.magic, width: v, height: h.height, maxc: h.maxc }
            } else if k == 2 {
                HeaderFields { magic: h.magic, width: h.width, height: v, maxc: h.maxc }
            } else {
                HeaderFields { magic: h.magic, width: h.width, height: h.height, maxc: v }
            };
            lemma_apply_tokens_concat(a.drop_first(), b, k + 1, h2);
        }
    }
}

/// Multi-field lines: joining two consecutive non-comment header lines with
/// a single space changes neither the populated fields nor the error, only
/// how many lines are consumed. Applied repeatedly, a header with all four
/// fields on one line parses to the same fields as one field per line.
pub proof fn lemma_join_lines(
    la: Seq<u8>,
    lb: Seq<u8>,
    rest: Seq<Seq<u8>>,
    k: int,
    h: HeaderFields,
)
    requires
        !is_comment(la),
        !is_comment(lb),
    ensures
        same_fields(
            parse_lines(seq![la + seq![SPACE] + lb].add(rest), k, h),
            parse_lines(seq![la, lb].add(rest), k, h),
        ),
{
    let joined = la + seq![SPACE] + lb;
    lemma_token_split_join(la, lb);
    lemma_apply_tokens_concat(token_split(la), token_split(lb), k, h);
    let l1 = seq![joined].add(rest);
    let l2 = seq![la, lb].add(rest);
    assert(l1[0] == joined);
    assert(l2[0] == la);
    assert(!is_comment(joined)) by {
        if la.len() > 0 {
            assert(joined[0] == la[0]);
        } else {
            assert(joined[0] == SPACE);
        }
    }
    assert(l1.drop_first() =~= rest);
    assert(l2.drop_first() =~= seq![lb].add(rest));
    assert(token_split(joined) == token_split(la) + token_split(lb));
    match apply_tokens(token_split(la), k, h) {
        Err(e) => {
            assert(apply_tokens(token_split(joined), k, h) == Err::<(int, HeaderFields), _>(e));
            assert(parse_lines(l1, k, h) == Err::<(HeaderFields, nat), _>(e));
            assert(parse_lines(l2, k, h) == Err::<(HeaderFields, nat), _>(e));
        },
        Ok((k2, h2)) => {
            assert(apply_tokens(token_split(joined), k, h) == apply_tokens(
                token_split(lb),
                k2,
                h2,
            ));
            if k2 >= 4 {
                assert(apply_tokens(token_split(lb), k2, h2) == Ok::<_, ImageError>((k2, h2)));
                assert(parse_lines(l1, k, h) == Ok::<_, ImageError>((h2, 1nat)));
                assert(parse_lines(l2, k, h) == Ok::<_, ImageError>((h2, 1nat)));
            } else {
                let l2r = seq![lb].add(rest);
                assert(l2r[0] == lb);
                assert(l2r.drop_first() =~= rest);
                match apply_tokens(token_split(lb), k2, h2) {
                    Err(e) => {
                        assert(parse_lines(l1, k, h) == Err::<(HeaderFields, nat), _>(e));
                        assert(parse_lines(l2r, k2, h2) == Err::<(HeaderFields, nat), _>(e));
                        assert(parse_lines(l2, k, h) == Err::<(HeaderFields, nat), _>(e));
                    },
                    Ok((k3, h3)) => {
                        if k3 >= 4 {
                            assert(parse_lines(l1, k, h) == Ok::<_, ImageError>((h3, 1nat)));
                            assert(parse_lines(l2r, k2, h2) == Ok::<_, ImageError>((h3, 1nat)));
                            assert(parse_lines(l2, k, h) == Ok::<_, ImageError>((h3, 2nat)));
                        } else {
                            match parse_lines(rest, k3, h3) {
                                Err(e) => {
                                    assert(parse_lines(l1, k, h) == Err::<
                                        (HeaderFields, nat),
                                        _,
                                    >(e));
                                    assert(parse_lines(l2, k, h) == Err::<
                                        (HeaderFields, nat),
                                        _,
                                    >(e));
                                },
                                Ok((hr, nr)) => {
                                    assert(parse_lines(l1, k, h) == Ok::<_, ImageError>(
                                        (hr, (nr + 1) as nat),
                                    ));
                                    assert(parse_lines(l2, k, h) == Ok::<_, ImageError>(
                                        (hr, (nr + 2) as nat),
                                    ));
                                },
                            }
                        }
                    },
                }
            }
        },
    }
}

} // verus!
