use vstd::prelude::*;
use vstd::utf8::*;
use super::mutations::ContentType;
use super::text_encoder::{
    chunk_outcome, completion, emit, emit_content, leading_continuations, lemma_escape_emit_empty,
    lemma_leading_continuations, lemma_valid_prefix_len, utf8_cut_short, valid_prefix_len,
};

verus! {

/// The UTF-8 encoding of a character.
pub open spec fn scalar_bytes(c: char) -> Seq<u8> {
    encode_scalar(c as u32)
}

/// Encoding a concatenation concatenates the encodings.
pub proof fn lemma_encode_concat(a: Seq<char>, b: Seq<char>)
    ensures
        encode_utf8(a + b) == encode_utf8(a) + encode_utf8(b),
    decreases a.len(),
{
    if a.len() == 0 {
        assert(a + b =~= b);
        assert(encode_utf8(a) + encode_utf8(b) =~= encode_utf8(b));
    } else {
        lemma_encode_concat(a.drop_first(), b);
        assert((a + b).drop_first() =~= a.drop_first() + b);
        assert((a + b)[0] == a[0]);
        assert(encode_utf8(a + b) =~= encode_utf8(a) + encode_utf8(b));
    }
}

/// The encoding of a character: one to four bytes, a first byte that is no continuation
/// byte, continuation bytes after it; valid, and no shorter start of it is.
pub proof fn lemma_scalar_shape(c: char)
    ensures
        1 <= scalar_bytes(c).len() <= 4,
        encode_utf8(seq![c]) == scalar_bytes(c),
        valid_utf8(scalar_bytes(c)),
        !is_continuation_byte(scalar_bytes(c)[0]),
        forall|k: int| 1 <= k < scalar_bytes(c).len() ==> is_continuation_byte(#[trigger] scalar_bytes(c)[k]),
        forall|m: int| 1 <= m < scalar_bytes(c).len() ==> !valid_utf8(#[trigger] scalar_bytes(c).take(m)),
{
    let e = scalar_bytes(c);
    assert(seq![c].drop_first() =~= Seq::<char>::empty());
    assert(encode_utf8(Seq::<char>::empty()) =~= Seq::<u8>::empty());
    assert(seq![c][0] == c);
    assert(encode_utf8(seq![c]) == e + encode_utf8(seq![c].drop_first()));
    assert(encode_utf8(seq![c]) =~= e);
    encode_utf8_first_scalar(seq![c]);
    encode_utf8_valid_utf8(seq![c]);
    assert(valid_first_scalar(e));
    assert(length_of_first_codepoint(e) == e.len());
    assert forall|m: int| 1 <= m < e.len() implies !valid_utf8(#[trigger] e.take(m)) by {
        let t = e.take(m);
        assert(t[0] == e[0]);
        if valid_utf8(t) {
            assert(valid_first_scalar(t));
        }
    }
}

/// Where the encoding of character `j` of `cs` starts in the encoding of `cs`.
pub open spec fn pos(cs: Seq<char>, j: int) -> int {
    encode_utf8(cs.take(j)).len() as int
}

/// The bytes of the first `m` bytes of character `j`, nothing past the last character.
pub open spec fn pending_at(cs: Seq<char>, j: int, m: int) -> Seq<u8> {
    if j < cs.len() {
        scalar_bytes(cs[j]).take(m)
    } else {
        Seq::empty()
    }
}

/// `m` bytes into character `j`, short of its end; or the very end.
pub open spec fn state_ok(cs: Seq<char>, j: int, m: int) -> bool {
    &&& 0 <= j <= cs.len()
    &&& 0 <= m
    &&& j < cs.len() ==> m < scalar_bytes(cs[j]).len()
    &&& j == cs.len() ==> m == 0
}

/// One more character, one more encoding.
pub proof fn lemma_take_step(cs: Seq<char>, j: int)
    requires
        0 <= j < cs.len(),
    ensures
        encode_utf8(cs.take(j + 1)) == encode_utf8(cs.take(j)) + scalar_bytes(cs[j]),
        pos(cs, j + 1) == pos(cs, j) + scalar_bytes(cs[j]).len(),
{
    assert(cs.take(j + 1) =~= cs.take(j) + seq![cs[j]]);
    lemma_encode_concat(cs.take(j), seq![cs[j]]);
    lemma_scalar_shape(cs[j]);
}

/// The encoding of the characters between `j1` and `j2` lies between their positions.
pub proof fn lemma_between(cs: Seq<char>, j1: int, j2: int)
    requires
        0 <= j1 <= j2 <= cs.len(),
    ensures
        pos(cs, j1) <= pos(cs, j2) <= encode_utf8(cs).len(),
        encode_utf8(cs).subrange(pos(cs, j1), pos(cs, j2)) == encode_utf8(cs.subrange(j1, j2)),
        pos(cs, cs.len() as int) == encode_utf8(cs).len(),
{
    assert(cs.take(cs.len() as int) =~= cs);
    assert(cs =~= cs.take(j2) + cs.skip(j2));
    lemma_encode_concat(cs.take(j2), cs.skip(j2));
    assert(cs.take(j2) =~= cs.take(j1) + cs.subrange(j1, j2));
    lemma_encode_concat(cs.take(j1), cs.subrange(j1, j2));
    let e = encode_utf8(cs);
    assert(e.subrange(pos(cs, j1), pos(cs, j2)) =~= encode_utf8(cs.subrange(j1, j2)));
}

/// Every index of the encoding is some bytes into some character, or the end.
pub open spec fn locate(cs: Seq<char>, i: int, j: int) -> (int, int)
    decreases cs.len() - j,
{
    if j >= cs.len() {
        (cs.len() as int, 0)
    } else if i < pos(cs, j + 1) {
        (j, i - pos(cs, j))
    } else {
        locate(cs, i, j + 1)
    }
}

/// What `locate` finds.
pub proof fn lemma_locate(cs: Seq<char>, i: int, j: int)
    requires
        0 <= j <= cs.len(),
        pos(cs, j) <= i <= encode_utf8(cs).len(),
    ensures
        j <= locate(cs, i, j).0,
        state_ok(cs, locate(cs, i, j).0, locate(cs, i, j).1),
        i == pos(cs, locate(cs, i, j).0) + locate(cs, i, j).1,
    decreases cs.len() - j,
{
    lemma_between(cs, j, cs.len() as int);
    if j < cs.len() {
        lemma_take_step(cs, j);
        if i >= pos(cs, j + 1) {
            lemma_locate(cs, i, j + 1);
        }
    }
}

/// The bytes from the start of character `j0` to `m2` bytes into character `j2`: whole
/// characters, then the start of one.
pub proof fn lemma_span(cs: Seq<char>, j0: int, j2: int, m2: int)
    requires
        0 <= j0 <= j2,
        state_ok(cs, j2, m2),
    ensures
        pos(cs, j2) + m2 <= encode_utf8(cs).len(),
        encode_utf8(cs).subrange(pos(cs, j0), pos(cs, j2) + m2) == encode_utf8(cs.subrange(j0, j2)) + pending_at(
            cs,
            j2,
            m2,
        ),
{
    lemma_between(cs, j0, j2);
    if j2 < cs.len() {
        lemma_between(cs, j2, j2 + 1);
        lemma_take_step(cs, j2);
        assert(cs.subrange(j2, j2 + 1) =~= seq![cs[j2]]);
        lemma_scalar_shape(cs[j2]);
        lemma_between(cs, j2 + 1, cs.len() as int);
        let e = encode_utf8(cs);
        assert(e.subrange(pos(cs, j2), pos(cs, j2) + m2) =~= scalar_bytes(cs[j2]).take(m2));
        assert(e.subrange(pos(cs, j0), pos(cs, j2) + m2) =~= e.subrange(pos(cs, j0), pos(cs, j2)) + e.subrange(
            pos(cs, j2),
            pos(cs, j2) + m2,
        ));
    } else {
        let e = encode_utf8(cs);
        assert(e.subrange(pos(cs, j0), pos(cs, j2) + m2) =~= encode_utf8(cs.subrange(j0, j2)) + Seq::<u8>::empty());
    }
}

/// What the sink finds in the bytes from the start of character `j0` to `m2` bytes into
/// character `j2`: valid UTF-8 where they end at a character; otherwise whole
/// characters followed by a character cut short, which `std::str::from_utf8` reports so.
pub proof fn lemma_rest(cs: Seq<char>, j0: int, j2: int, m2: int)
    requires
        0 <= j0 <= j2,
        state_ok(cs, j2, m2),
    ensures
        ({
            let r = encode_utf8(cs).subrange(pos(cs, j0), pos(cs, j2) + m2);
            let a = encode_utf8(cs.subrange(j0, j2));
            &&& m2 == 0 ==> valid_utf8(r) && r == a
            &&& m2 > 0 ==> {
                &&& !valid_utf8(r)
                &&& valid_prefix_len(r) == a.len()
                &&& utf8_cut_short(r)
                &&& r.take(a.len() as int) == a
                &&& r.skip(a.len() as int) == pending_at(cs, j2, m2)
                &&& r.len() - a.len() == m2
            }
        }),
{
    lemma_span(cs, j0, j2, m2);
    let r = encode_utf8(cs).subrange(pos(cs, j0), pos(cs, j2) + m2);
    let a = encode_utf8(cs.subrange(j0, j2));
    let q = pending_at(cs, j2, m2);
    encode_utf8_valid_utf8(cs.subrange(j0, j2));
    if m2 == 0 {
        assert(q =~= Seq::<u8>::empty());
        assert(r =~= a);
    } else {
        lemma_scalar_shape(cs[j2]);
        let w = scalar_bytes(cs[j2]);
        assert(q == w.take(m2));
        assert(!valid_utf8(q));
        assert(r == a + q);
        assert(r.subrange(0, a.len() as int) =~= a);
        assert(r.subrange(a.len() as int, r.len() as int) =~= q);
        partial_valid_partial_invalid_utf8(r, a.len() as int);
        assert forall|k: int| a.len() < k <= r.len() implies !valid_utf8(#[trigger] r.take(k)) by {
            let t = r.take(k);
            assert(t.subrange(0, a.len() as int) =~= a);
            assert(t.subrange(a.len() as int, t.len() as int) =~= w.take(k - a.len()));
            partial_valid_partial_invalid_utf8(t, a.len() as int);
        }
        assert(r.take(a.len() as int) =~= a);
        assert(r.take(a.len() as int) =~= r.take(a.len() as int));
        lemma_valid_prefix_len(r, a.len() as int);
        assert(r.skip(a.len() as int) =~= q);
        let tail = cs.skip(j2 + 1);
        let ext = w.skip(m2) + encode_utf8(tail);
        assert(cs.subrange(j0, cs.len() as int) =~= cs.subrange(j0, j2) + seq![cs[j2]] + tail);
        lemma_encode_concat(cs.subrange(j0, j2) + seq![cs[j2]], tail);
        lemma_encode_concat(cs.subrange(j0, j2), seq![cs[j2]]);
        encode_utf8_valid_utf8(cs.subrange(j0, cs.len() as int));
        assert(r + ext =~= a + w + encode_utf8(tail));
        assert(valid_utf8(r + ext));
    }
}

/// The bytes of character `j` where it stands in the encoding, and the byte that
/// follows them, the first of the next character, which is no continuation byte.
pub proof fn lemma_char_bytes(cs: Seq<char>, j: int)
    requires
        0 <= j < cs.len(),
    ensures
        pos(cs, j + 1) == pos(cs, j) + scalar_bytes(cs[j]).len(),
        pos(cs, j + 1) <= encode_utf8(cs).len(),
        encode_utf8(cs).subrange(pos(cs, j), pos(cs, j + 1)) == scalar_bytes(cs[j]),
        forall|k: int|
            0 <= k < scalar_bytes(cs[j]).len() ==> encode_utf8(cs)[pos(cs, j) + k] == #[trigger] scalar_bytes(
                cs[j],
            )[k],
        pos(cs, j + 1) < encode_utf8(cs).len() ==> j + 1 < cs.len() && !is_continuation_byte(
            encode_utf8(cs)[pos(cs, j + 1)],
        ),
{
    let e = encode_utf8(cs);
    lemma_take_step(cs, j);
    lemma_between(cs, j, j + 1);
    lemma_between(cs, j + 1, cs.len() as int);
    assert(cs.subrange(j, j + 1) =~= seq![cs[j]]);
    lemma_scalar_shape(cs[j]);
    let w = scalar_bytes(cs[j]);
    assert forall|k: int| 0 <= k < w.len() implies e[pos(cs, j) + k] == #[trigger] w[k] by {
        assert(e.subrange(pos(cs, j), pos(cs, j + 1))[k] == e[pos(cs, j) + k]);
    }
    if pos(cs, j + 1) < e.len() {
        assert(j + 1 < cs.len());
        lemma_take_step(cs, j + 1);
        lemma_between(cs, j + 1, j + 2);
        assert(cs.subrange(j + 1, j + 2) =~= seq![cs[j + 1]]);
        lemma_scalar_shape(cs[j + 1]);
        assert(e.subrange(pos(cs, j + 1), pos(cs, j + 2))[0] == e[pos(cs, j + 1)]);
    }
}

/// The chunk ends inside the character it continues.
proof fn lemma_step_inside(cs: Seq<char>, j: int, m: int, i2: int)
    requires
        state_ok(cs, j, m),
        m > 0,
        pos(cs, j) + m < i2 < pos(cs, j + 1),
        j < cs.len(),
        i2 <= encode_utf8(cs).len(),
    ensures
        locate(cs, i2, j) == (j, i2 - pos(cs, j)),
        chunk_outcome(None, pending_at(cs, j, m), encode_utf8(cs).subrange(pos(cs, j) + m, i2), ContentType::Html)
            == (true, Seq::<u8>::empty(), pending_at(cs, j, i2 - pos(cs, j))),
{
    let e = encode_utf8(cs);
    let i = pos(cs, j) + m;
    let c = e.subrange(i, i2);
    lemma_char_bytes(cs, j);
    lemma_scalar_shape(cs[j]);
    let w = scalar_bytes(cs[j]);
    let m2 = i2 - pos(cs, j);
    let p = pending_at(cs, j, m);
    assert forall|t: int| 0 <= t < c.len() implies is_continuation_byte(#[trigger] c[t]) by {
        assert(c[t] == e[i + t]);
        assert(e[pos(cs, j) + (m + t)] == w[m + t]);
    }
    lemma_leading_continuations(c, c.len() as int);
    let q = p + c;
    assert(q =~= w.take(m2)) by {
        assert forall|t: int| 0 <= t < q.len() implies q[t] == w.take(m2)[t] by {
            if t >= m {
                assert(q[t] == c[t - m]);
                assert(c[t - m] == e[i + (t - m)]);
                assert(e[pos(cs, j) + t] == w[t]);
            }
        }
    }
    assert(!valid_utf8(q));
    lemma_escape_emit_empty(None, Seq::<u8>::empty());
    assert(Seq::<u8>::empty() + Seq::<u8>::empty() =~= Seq::<u8>::empty());
}

/// The chunk ends where the character it continues ends.
proof fn lemma_step_complete(cs: Seq<char>, j: int, m: int, i2: int)
    requires
        state_ok(cs, j, m),
        m > 0,
        j < cs.len(),
        i2 == pos(cs, j + 1),
    ensures
        locate(cs, i2, j) == (j + 1, 0int),
        chunk_outcome(None, pending_at(cs, j, m), encode_utf8(cs).subrange(pos(cs, j) + m, i2), ContentType::Html)
            == (true, encode_utf8(cs).subrange(pos(cs, j), pos(cs, j + 1)), pending_at(cs, j + 1, 0)),
{
    let e = encode_utf8(cs);
    let i = pos(cs, j) + m;
    let c = e.subrange(i, i2);
    lemma_char_bytes(cs, j);
    lemma_scalar_shape(cs[j]);
    let w = scalar_bytes(cs[j]);
    let p = pending_at(cs, j, m);
    assert(locate(cs, i2, j) == locate(cs, i2, j + 1));
    if j + 1 < cs.len() {
        lemma_take_step(cs, j + 1);
        lemma_scalar_shape(cs[j + 1]);
    }
    assert forall|t: int| 0 <= t < c.len() implies is_continuation_byte(#[trigger] c[t]) by {
        assert(c[t] == e[i + t]);
        assert(e[pos(cs, j) + (m + t)] == w[m + t]);
    }
    lemma_leading_continuations(c, c.len() as int);
    let q = p + c;
    assert(q =~= w) by {
        assert forall|t: int| 0 <= t < q.len() implies q[t] == w[t] by {
            if t >= m {
                assert(q[t] == c[t - m]);
                assert(c[t - m] == e[i + (t - m)]);
                assert(e[pos(cs, j) + t] == w[t]);
            }
        }
    }
    assert(pending_at(cs, j + 1, 0) =~= Seq::<u8>::empty());
    lemma_escape_emit_empty(None, Seq::<u8>::empty());
    assert(w + Seq::<u8>::empty() =~= w);
}

/// The chunk goes past the end of the character it continues.
proof fn lemma_step_beyond(cs: Seq<char>, j: int, m: int, i2: int)
    requires
        state_ok(cs, j, m),
        m > 0,
        j < cs.len(),
        pos(cs, j + 1) < i2 <= encode_utf8(cs).len(),
    ensures
        ({
            let (j2, m2) = locate(cs, i2, j);
            chunk_outcome(None, pending_at(cs, j, m), encode_utf8(cs).subrange(pos(cs, j) + m, i2), ContentType::Html)
                == (true, encode_utf8(cs).subrange(pos(cs, j), pos(cs, j2)), pending_at(cs, j2, m2))
        }),
{
    let e = encode_utf8(cs);
    let i = pos(cs, j) + m;
    let c = e.subrange(i, i2);
    lemma_char_bytes(cs, j);
    lemma_scalar_shape(cs[j]);
    let w = scalar_bytes(cs[j]);
    let p = pending_at(cs, j, m);
    let rem = w.len() - m;
    assert(locate(cs, i2, j) == locate(cs, i2, j + 1));
    lemma_locate(cs, i2, j + 1);
    let (j2, m2) = locate(cs, i2, j);
    assert forall|t: int| 0 <= t < rem implies is_continuation_byte(#[trigger] c[t]) by {
        assert(c[t] == e[i + t]);
        assert(e[pos(cs, j) + (m + t)] == w[m + t]);
    }
    assert(c[rem] == e[pos(cs, j + 1)]);
    lemma_leading_continuations(c, rem);
    let q = p + c.take(rem);
    assert(q =~= w) by {
        assert forall|t: int| 0 <= t < q.len() implies q[t] == w[t] by {
            if t >= m {
                assert(q[t] == c[t - m]);
                assert(c[t - m] == e[i + (t - m)]);
                assert(e[pos(cs, j) + t] == w[t]);
            }
        }
    }
    let r = c.skip(rem);
    assert(r =~= e.subrange(pos(cs, j + 1), pos(cs, j2) + m2));
    lemma_rest(cs, j + 1, j2, m2);
    lemma_between(cs, j, j2);
    lemma_between(cs, j + 1, j2);
    let a = encode_utf8(cs.subrange(j + 1, j2));
    assert(e.subrange(pos(cs, j), pos(cs, j2)) =~= w + a);
    if m2 == 0 {
        assert(pending_at(cs, j2, m2) =~= Seq::<u8>::empty());
    } else {
        lemma_scalar_shape(cs[j2]);
    }
}

/// The chunk starts at a character.
proof fn lemma_step_boundary(cs: Seq<char>, j: int, i2: int)
    requires
        0 <= j < cs.len(),
        pos(cs, j) < i2 <= encode_utf8(cs).len(),
    ensures
        ({
            let (j2, m2) = locate(cs, i2, j);
            chunk_outcome(None, pending_at(cs, j, 0), encode_utf8(cs).subrange(pos(cs, j), i2), ContentType::Html)
                == (true, encode_utf8(cs).subrange(pos(cs, j), pos(cs, j2)), pending_at(cs, j2, m2))
        }),
{
    let e = encode_utf8(cs);
    let c = e.subrange(pos(cs, j), i2);
    lemma_char_bytes(cs, j);
    lemma_scalar_shape(cs[j]);
    let w = scalar_bytes(cs[j]);
    let p = pending_at(cs, j, 0);
    lemma_locate(cs, i2, j);
    let (j2, m2) = locate(cs, i2, j);
    assert(p =~= Seq::<u8>::empty());
    assert(c[0] == e[pos(cs, j)]);
    assert(e[pos(cs, j) + 0] == w[0]);
    lemma_leading_continuations(c, 0);
    assert(p + c.take(0) =~= Seq::<u8>::empty());
    assert(c.skip(0) =~= c);
    assert(c =~= e.subrange(pos(cs, j), pos(cs, j2) + m2));
    lemma_rest(cs, j, j2, m2);
    lemma_between(cs, j, j2);
    lemma_escape_emit_empty(None, Seq::<u8>::empty());
    if m2 == 0 {
        assert(pending_at(cs, j2, m2) =~= Seq::<u8>::empty());
    } else {
        lemma_scalar_shape(cs[j2]);
    }
}

/// Writing the next chunk of the encoding of `cs`, from `m` bytes into character `j`
/// (those bytes being the unfinished character the sink keeps), writes the whole
/// characters up to where the chunk ends and keeps the start of the character it cuts.
pub proof fn lemma_chunk_step(cs: Seq<char>, j: int, m: int, i2: int)
    requires
        state_ok(cs, j, m),
        pos(cs, j) + m < i2 <= encode_utf8(cs).len(),
    ensures
        state_ok(cs, locate(cs, i2, j).0, locate(cs, i2, j).1),
        i2 == pos(cs, locate(cs, i2, j).0) + locate(cs, i2, j).1,
        j <= locate(cs, i2, j).0,
        ({
            let c = encode_utf8(cs).subrange(pos(cs, j) + m, i2);
            let (j2, m2) = locate(cs, i2, j);
            chunk_outcome(None, pending_at(cs, j, m), c, ContentType::Html) == (
                true,
                encode_utf8(cs).subrange(pos(cs, j), pos(cs, j2)),
                pending_at(cs, j2, m2),
            )
        }),
{
    lemma_between(cs, j, cs.len() as int);
    lemma_locate(cs, i2, j);
    assert(j < cs.len());
    lemma_char_bytes(cs, j);
    if m > 0 {
        if i2 < pos(cs, j + 1) {
            lemma_step_inside(cs, j, m, i2);
        } else if i2 == pos(cs, j + 1) {
            lemma_step_complete(cs, j, m, i2);
        } else {
            lemma_step_beyond(cs, j, m, i2);
        }
    } else {
        lemma_step_boundary(cs, j, i2);
    }
}

/// The chunks one after another.
pub open spec fn concat_chunks(chunks: Seq<Seq<u8>>) -> Seq<u8>
    decreases chunks.len(),
{
    if chunks.len() == 0 {
        Seq::empty()
    } else {
        chunks[0] + concat_chunks(chunks.drop_first())
    }
}

/// What writing the chunks one after another with `write_utf8_chunk` gives, from the
/// unfinished bytes `p`: whether every write succeeds (it stops at the first that
/// fails), the bytes written, and the bytes left unfinished.
pub open spec fn write_chunks(
    target: Option<Seq<char>>,
    p: Seq<u8>,
    chunks: Seq<Seq<u8>>,
    content_type: ContentType,
) -> (bool, Seq<u8>, Seq<u8>)
    decreases chunks.len(),
{
    if chunks.len() == 0 {
        (true, Seq::empty(), p)
    } else {
        let (ok, written, pending) = chunk_outcome(target, p, chunks[0], content_type);
        if !ok {
            (false, written, pending)
        } else {
            let (ok2, written2, pending2) = write_chunks(target, pending, chunks.drop_first(), content_type);
            (ok2, written + written2, pending2)
        }
    }
}

/// From `m` bytes into character `j`, writing the rest of the encoding in non-empty
/// chunks writes it all from the start of character `j` and leaves nothing unfinished.
proof fn lemma_chunks_from(cs: Seq<char>, j: int, m: int, chunks: Seq<Seq<u8>>)
    requires
        state_ok(cs, j, m),
        pos(cs, j) + m <= encode_utf8(cs).len(),
        concat_chunks(chunks) == encode_utf8(cs).skip(pos(cs, j) + m),
        forall|k: int| 0 <= k < chunks.len() ==> (#[trigger] chunks[k]).len() > 0,
    ensures
        write_chunks(None, pending_at(cs, j, m), chunks, ContentType::Html) == (
            true,
            encode_utf8(cs).skip(pos(cs, j)),
            Seq::<u8>::empty(),
        ),
    decreases chunks.len(),
{
    let e = encode_utf8(cs);
    let i = pos(cs, j) + m;
    lemma_between(cs, j, cs.len() as int);
    assert(e.skip(i).len() == e.len() - i);
    if chunks.len() == 0 {
        assert(concat_chunks(chunks) =~= Seq::<u8>::empty());
        assert(i == e.len());
        if j < cs.len() {
            lemma_char_bytes(cs, j);
        }
        assert(j == cs.len() && m == 0);
        assert(e.skip(pos(cs, j)) =~= Seq::<u8>::empty());
        assert(pending_at(cs, j, m) =~= Seq::<u8>::empty());
    } else {
        let c = chunks[0];
        let rest = chunks.drop_first();
        assert(concat_chunks(chunks) == c + concat_chunks(rest));
        let i2 = i + c.len();
        assert(c.len() > 0);
        assert((c + concat_chunks(rest)).len() == c.len() + concat_chunks(rest).len());
        assert(i2 <= e.len());
        assert(c =~= e.subrange(i, i2)) by {
            assert forall|t: int| 0 <= t < c.len() implies c[t] == e.subrange(i, i2)[t] by {
                assert((c + concat_chunks(rest))[t] == e.skip(i)[t]);
            }
        }
        assert(concat_chunks(rest) =~= e.skip(i2)) by {
            assert forall|t: int| 0 <= t < concat_chunks(rest).len() implies concat_chunks(rest)[t] == e.skip(i2)[t] by {
                assert((c + concat_chunks(rest))[c.len() + t] == e.skip(i)[c.len() + t]);
            }
        }
        lemma_chunk_step(cs, j, m, i2);
        let (j2, m2) = locate(cs, i2, j);
        assert forall|k: int| 0 <= k < rest.len() implies (#[trigger] rest[k]).len() > 0 by {
            assert(rest[k] == chunks[k + 1]);
        }
        lemma_chunks_from(cs, j2, m2, rest);
        lemma_between(cs, j, j2);
        lemma_between(cs, j2, cs.len() as int);
        assert(e.subrange(pos(cs, j), pos(cs, j2)) + e.skip(pos(cs, j2)) =~= e.skip(pos(cs, j)));
    }
}

/// The documented promise of `write_utf8_chunk`: a text may be written in chunks cut
/// anywhere, even inside a character, as long as together they make valid UTF-8; the
/// sink then writes the text whole and keeps nothing unfinished. (Every chunk must hold
/// a byte: an empty chunk while a character is unfinished is an error.)
pub proof fn lemma_utf8_chunks_written_whole(cs: Seq<char>, chunks: Seq<Seq<u8>>)
    requires
        concat_chunks(chunks) == encode_utf8(cs),
        forall|k: int| 0 <= k < chunks.len() ==> (#[trigger] chunks[k]).len() > 0,
    ensures
        write_chunks(None, Seq::empty(), chunks, ContentType::Html) == (true, encode_utf8(cs), Seq::<u8>::empty()),
{
    assert(cs.take(0) =~= Seq::<char>::empty());
    assert(encode_utf8(Seq::<char>::empty()) =~= Seq::<u8>::empty());
    assert(pos(cs, 0) == 0);
    assert(encode_utf8(cs).skip(0) =~= encode_utf8(cs));
    if cs.len() > 0 {
        lemma_scalar_shape(cs[0]);
    }
    assert(pending_at(cs, 0, 0) =~= Seq::<u8>::empty());
    lemma_chunks_from(cs, 0, 0, chunks);
}

} // verus!
