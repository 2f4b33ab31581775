//! Whitespace in a byte string, and what collapsing its runs to single
//! spaces yields.
//!
//! A whitespace character is a code point with the Unicode property
//! White_Space, met in the bytes as its UTF-8 encoding. Bytes that are part
//! of no such encoding are never whitespace, whatever else they are.

use vstd::prelude::*;
use vstd::utf8::encode_scalar;

verus! {

/// The byte that replaces a run of whitespace.
pub const SPACE: u8 = 0x20;

/// The code points with the Unicode property White_Space.
pub open spec fn is_white_space(c: u32) -> bool {
    ||| 0x09 <= c <= 0x0D
    ||| c == 0x20
    ||| c == 0x85
    ||| c == 0xA0
    ||| c == 0x1680
    ||| 0x2000 <= c <= 0x200A
    ||| c == 0x2028
    ||| c == 0x2029
    ||| c == 0x202F
    ||| c == 0x205F
    ||| c == 0x3000
}

/// The number of bytes of the whitespace character that `t` begins with,
/// or 0 where it begins with none.
pub open spec fn space_len(t: Seq<u8>) -> nat {
    if t.len() >= 1 && (0x09 <= t[0] <= 0x0D || t[0] == 0x20) {
        1
    } else if t.len() >= 2 && t[0] == 0xC2 && (t[1] == 0x85 || t[1] == 0xA0) {
        2
    } else if t.len() >= 3 && t[0] == 0xE1 && t[1] == 0x9A && t[2] == 0x80 {
        3
    } else if t.len() >= 3 && t[0] == 0xE2 && t[1] == 0x80 && (0x80 <= t[2] <= 0x8A || t[2]
        == 0xA8 || t[2] == 0xA9 || t[2] == 0xAF) {
        3
    } else if t.len() >= 3 && t[0] == 0xE2 && t[1] == 0x81 && t[2] == 0x9F {
        3
    } else if t.len() >= 3 && t[0] == 0xE3 && t[1] == 0x80 && t[2] == 0x80 {
        3
    } else {
        0
    }
}

/// What is left of `t` behind the whitespace that it begins with.
pub open spec fn after_run(t: Seq<u8>) -> Seq<u8>
    decreases t.len(),
{
    if space_len(t) > 0 {
        after_run(t.skip(space_len(t) as int))
    } else {
        t
    }
}

/// What begins with whitespace is longer than what follows that
/// whitespace.
pub proof fn after_run_is_shorter(t: Seq<u8>)
    ensures
        after_run(t).len() <= t.len(),
        space_len(t) > 0 ==> after_run(t).len() < t.len(),
        space_len(after_run(t)) == 0,
    decreases t.len(),
{
    if space_len(t) > 0 {
        after_run_is_shorter(t.skip(space_len(t) as int));
    }
}

/// The bytes of `t` with every maximal run of whitespace characters
/// replaced by one space, and every other byte kept as it is.
pub open spec fn collapsed(t: Seq<u8>) -> Seq<u8>
    decreases t.len(),
{
    if t.len() == 0 {
        t
    } else if space_len(t) > 0 {
        proof {
            after_run_is_shorter(t);
        }
        seq![SPACE] + collapsed(after_run(t))
    } else {
        seq![t[0]] + collapsed(t.drop_first())
    }
}

/// The bytes of `t` that are part of no whitespace character, in order.
pub open spec fn solid(t: Seq<u8>) -> Seq<u8>
    decreases t.len(),
{
    if t.len() == 0 {
        t
    } else if space_len(t) > 0 {
        solid(t.skip(space_len(t) as int))
    } else {
        seq![t[0]] + solid(t.drop_first())
    }
}

/// Every whitespace character that `t` holds is a single space with no
/// whitespace behind it.
pub open spec fn is_collapsed(t: Seq<u8>) -> bool {
    forall|j: int|
        0 <= j < t.len() && space_len(#[trigger] t.skip(j)) > 0 ==> t[j] == SPACE && space_len(
            t.skip(j + 1),
        ) == 0
}

/// The UTF-8 encodings of the white-space code points, byte by byte.
proof fn white_space_encodings(c: u32)
    requires
        is_white_space(c),
    ensures
        c <= 0x20 ==> encode_scalar(c) == seq![c as u8],
        c == 0x85 ==> encode_scalar(c) == seq![0xC2u8, 0x85u8],
        c == 0xA0 ==> encode_scalar(c) == seq![0xC2u8, 0xA0u8],
        c == 0x1680 ==> encode_scalar(c) == seq![0xE1u8, 0x9Au8, 0x80u8],
        0x2000 <= c <= 0x202F ==> encode_scalar(c) == seq![
            0xE2u8,
            0x80u8,
            (c - 0x2000 + 0x80) as u8,
        ],
        c == 0x205F ==> encode_scalar(c) == seq![0xE2u8, 0x81u8, 0x9Fu8],
        c == 0x3000 ==> encode_scalar(c) == seq![0xE3u8, 0x80u8, 0x80u8],
{
    if c <= 0x20 {
        assert((c & 0x7F) as u8 == c as u8) by (bit_vector)
            requires
                c <= 0x20,
        ;
    } else if c == 0x85 || c == 0xA0 {
        assert((0xC0u8 | ((c >> 6) & 0x1F) as u8) == 0xC2u8 && (0x80u8 | (c & 0x3F) as u8)
            == c as u8) by (bit_vector)
            requires
                c == 0x85 || c == 0xA0,
        ;
    } else if c == 0x1680 {
        assert((0xE0u8 | ((c >> 12) & 0x0F) as u8) == 0xE1u8 && (0x80u8 | ((c >> 6) & 0x3F) as u8)
            == 0x9Au8 && (0x80u8 | (c & 0x3F) as u8) == 0x80u8) by (bit_vector)
            requires
                c == 0x1680,
        ;
    } else if c <= 0x202F {
        assert((0xE0u8 | ((c >> 12) & 0x0F) as u8) == 0xE2u8 && (0x80u8 | ((c >> 6) & 0x3F) as u8)
            == 0x80u8 && (0x80u8 | (c & 0x3F) as u8) == (c - 0x2000 + 0x80) as u8) by (bit_vector)
            requires
                0x2000 <= c <= 0x202F,
        ;
    } else if c == 0x205F {
        assert((0xE0u8 | ((c >> 12) & 0x0F) as u8) == 0xE2u8 && (0x80u8 | ((c >> 6) & 0x3F) as u8)
            == 0x81u8 && (0x80u8 | (c & 0x3F) as u8) == 0x9Fu8) by (bit_vector)
            requires
                c == 0x205F,
        ;
    } else {
        assert((0xE0u8 | ((c >> 12) & 0x0F) as u8) == 0xE3u8 && (0x80u8 | ((c >> 6) & 0x3F) as u8)
            == 0x80u8 && (0x80u8 | (c & 0x3F) as u8) == 0x80u8) by (bit_vector)
            requires
                c == 0x3000,
        ;
    }
}

/// Bytes that begin with the UTF-8 encoding of a white-space code point
/// begin with a whitespace character of that many bytes.
pub proof fn white_space_is_recognized(c: u32, rest: Seq<u8>)
    requires
        is_white_space(c),
    ensures
        encode_scalar(c).len() > 0,
        space_len(encode_scalar(c) + rest) == encode_scalar(c).len(),
{
    white_space_encodings(c);
}

/// Bytes that begin with a whitespace character begin with the UTF-8
/// encoding of a white-space code point, which is returned.
pub proof fn recognized_is_white_space(t: Seq<u8>) -> (c: u32)
    requires
        space_len(t) > 0,
    ensures
        is_white_space(c),
        encode_scalar(c) == t.take(space_len(t) as int),
{
    let c: u32 = if space_len(t) == 1 {
        t[0] as u32
    } else if space_len(t) == 2 {
        t[1] as u32
    } else if t[0] == 0xE1 {
        0x1680u32
    } else if t[0] == 0xE3 {
        0x3000u32
    } else if t[1] == 0x81 {
        0x205Fu32
    } else {
        (0x2000 + (t[2] - 0x80)) as u32
    };
    white_space_encodings(c);
    assert(encode_scalar(c) =~= t.take(space_len(t) as int));
    c
}

/// How the collapsed form of a non-empty byte string begins and goes on.
proof fn collapsed_unfolds(t: Seq<u8>)
    requires
        t.len() > 0,
    ensures
        collapsed(t).len() > 0,
        space_len(t) > 0 ==> collapsed(t)[0] == SPACE && collapsed(t).skip(1) == collapsed(
            after_run(t),
        ),
        space_len(t) == 0 ==> collapsed(t)[0] == t[0] && collapsed(t).skip(1) == collapsed(
            t.drop_first(),
        ),
{
    if space_len(t) > 0 {
        assert((seq![SPACE] + collapsed(after_run(t))).skip(1) =~= collapsed(after_run(t)));
    } else {
        assert((seq![t[0]] + collapsed(t.drop_first())).skip(1) =~= collapsed(t.drop_first()));
    }
}

/// A byte that is kept as it is begins no whitespace character in the
/// collapsed form either.
proof fn kept_byte_begins_no_space(t: Seq<u8>)
    requires
        t.len() > 0,
        space_len(t) == 0,
    ensures
        space_len(collapsed(t)) == 0,
{
    let o = collapsed(t);
    collapsed_unfolds(t);
    let t1 = t.drop_first();
    if o.len() >= 2 {
        assert(o[1] == o.skip(1)[0]);
        assert(t1.len() > 0);
        collapsed_unfolds(t1);
        assert(t1[0] == t[1]);
        if o[1] != SPACE {
            assert(o[1] == t[1]);
            let t2 = t1.drop_first();
            if o.len() >= 3 {
                assert(o[2] == o.skip(1).skip(1)[0]);
                assert(o.skip(1).skip(1) == collapsed(t1).skip(1));
                assert(t2.len() > 0);
                collapsed_unfolds(t2);
                assert(t2[0] == t[2]);
            }
        }
    }
}

/// In a collapsed form every whitespace character is a single space with
/// no whitespace behind it: each maximal run has become exactly one space.
pub proof fn collapsed_is_collapsed(t: Seq<u8>)
    ensures
        is_collapsed(collapsed(t)),
    decreases t.len(),
{
    let o = collapsed(t);
    if t.len() > 0 {
        collapsed_unfolds(t);
        after_run_is_shorter(t);
        let rest = if space_len(t) > 0 {
            after_run(t)
        } else {
            t.drop_first()
        };
        collapsed_is_collapsed(rest);
        let tail = collapsed(rest);
        assert(o.skip(1) == tail);
        assert forall|j: int| 0 <= j < o.len() && space_len(#[trigger] o.skip(j)) > 0 implies o[j]
            == SPACE && space_len(o.skip(j + 1)) == 0 by {
            if j == 0 {
                assert(o.skip(0) =~= o);
                if space_len(t) > 0 {
                    if rest.len() > 0 {
                        kept_byte_begins_no_space(rest);
                    }
                } else {
                    kept_byte_begins_no_space(t);
                }
            } else {
                assert(o.skip(j) =~= tail.skip(j - 1));
                assert(o.skip(j + 1) =~= tail.skip(j));
                assert(o[j] == tail[j - 1]);
            }
        }
    }
}

/// Collapsing changes nothing where every whitespace character is already
/// a single space with no whitespace behind it.
pub proof fn collapsed_form_is_kept(t: Seq<u8>)
    requires
        is_collapsed(t),
    ensures
        collapsed(t) == t,
    decreases t.len(),
{
    if t.len() > 0 {
        let rest = t.skip(1);
        assert(t.skip(0) =~= t);
        assert(rest =~= t.drop_first());
        assert forall|j: int| 0 <= j < rest.len() && space_len(#[trigger] rest.skip(j))
            > 0 implies rest[j] == SPACE && space_len(rest.skip(j + 1)) == 0 by {
            assert(rest.skip(j) =~= t.skip(j + 1));
            assert(rest.skip(j + 1) =~= t.skip(j + 2));
        }
        collapsed_form_is_kept(rest);
        if space_len(t) > 0 {
            assert(t[0] == SPACE);
            assert(space_len(t) == 1);
            assert(after_run(rest) == rest);
            assert(after_run(t) == rest);
        }
        assert(seq![t[0]] + rest =~= t);
    }
}

/// Collapsing twice yields what collapsing once yields.
pub proof fn collapsing_is_idempotent(t: Seq<u8>)
    ensures
        collapsed(collapsed(t)) == collapsed(t),
{
    collapsed_is_collapsed(t);
    collapsed_form_is_kept(collapsed(t));
}

/// Leading whitespace adds nothing to the bytes that are part of none.
proof fn solid_passes_run(t: Seq<u8>)
    ensures
        solid(t) == solid(after_run(t)),
    decreases t.len(),
{
    if space_len(t) > 0 {
        solid_passes_run(t.skip(space_len(t) as int));
    }
}

/// The bytes that are part of no whitespace character are the same, and in
/// the same order, before and after collapsing.
pub proof fn solid_bytes_survive(t: Seq<u8>)
    ensures
        solid(collapsed(t)) == solid(t),
    decreases t.len(),
{
    let o = collapsed(t);
    if t.len() > 0 {
        collapsed_unfolds(t);
        after_run_is_shorter(t);
        if space_len(t) > 0 {
            solid_bytes_survive(after_run(t));
            solid_passes_run(t);
            assert(space_len(o) == 1);
        } else {
            solid_bytes_survive(t.drop_first());
            kept_byte_begins_no_space(t);
            assert(o.drop_first() =~= o.skip(1));
        }
    }
}

} // verus!
