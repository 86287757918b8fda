use vstd::prelude::*;
use vstd::utf8::encode_utf8;
use vstd::string::StringSliceAdditionalSpecFns;
use super::text_encoder::{StreamingHandlerSink, emit, emit_content, replacement_char_bytes};

verus! {

/// The type of inserted content.
#[derive(Debug, Copy, Clone, PartialEq, Eq, Structural)]
pub enum ContentType {
    /// HTML content type. The rewriter will insert the content as is.
    Html,
    /// Text content type. The rewriter will HTML-escape the content before insertion:
    ///     - `<` will be replaced with `&lt;`
    ///     - `>` will be replaced with `&gt;`
    ///     - `&` will be replaced with `&amp;`
    Text,
}

/// A piece of inserted content with its type.
#[derive(Debug)]
pub enum StringChunk {
    Buffer(String, ContentType),
}

impl StringChunk {
    /// The content of the chunk and its type.
    pub open spec fn view(&self) -> (Seq<char>, ContentType) {
        match self {
            StringChunk::Buffer(s, t) => (s@, *t),
        }
    }

    /// A chunk holding a copy of `content`.
    pub fn from_str(content: &str, content_type: ContentType) -> (r: StringChunk)
        ensures
            r@ == (content@, content_type),
    {
        StringChunk::Buffer(content.to_owned(), content_type)
    }
}

/// What writing the chunks one after another gives, each escaped where it is text.
pub open spec fn chunks_emit(target: Option<Seq<char>>, chunks: Seq<(Seq<char>, ContentType)>) -> Seq<u8>
    decreases chunks.len(),
{
    if chunks.len() == 0 {
        Seq::empty()
    } else {
        chunks_emit(target, chunks.drop_last()) + emit_content(
            target,
            encode_utf8(chunks.last().0),
            chunks.last().1,
        )
    }
}

/// What is written for a unit with the given changes whose own bytes are `body`.
pub open spec fn unit_bytes(
    target: Option<Seq<char>>,
    changes: (Seq<(Seq<char>, ContentType)>, Seq<(Seq<char>, ContentType)>, Seq<(Seq<char>, ContentType)>, bool),
    body: Seq<u8>,
) -> Seq<u8> {
    chunks_emit(target, changes.0) + (if changes.3 {
        chunks_emit(target, changes.1)
    } else {
        body
    }) + chunks_emit(target, changes.2)
}

/// Content made of chunks, each with its type.
#[derive(Debug)]
pub struct DynamicString {
    chunks: Vec<StringChunk>,
}

impl DynamicString {
    /// The chunks, in order.
    pub closed spec fn view(&self) -> Seq<(Seq<char>, ContentType)> {
        Seq::new(self.chunks@.len(), |i: int| self.chunks@[i]@)
    }

    /// Empty content.
    pub fn new() -> (r: DynamicString)
        ensures
            r@ == Seq::<(Seq<char>, ContentType)>::empty(),
    {
        let r = DynamicString { chunks: Vec::new() };
        proof {
            assert(r@ =~= Seq::<(Seq<char>, ContentType)>::empty());
        }
        r
    }

    /// Removes every chunk.
    pub fn clear(&mut self)
        ensures
            final(self)@ == Seq::<(Seq<char>, ContentType)>::empty(),
    {
        self.chunks.clear();
        proof {
            assert(self@ =~= Seq::<(Seq<char>, ContentType)>::empty());
        }
    }

    /// Adds a chunk before the others.
    pub fn push_front(&mut self, chunk: StringChunk)
        ensures
            final(self)@ == seq![chunk@] + old(self)@,
    {
        let ghost c = chunk@;
        self.chunks.insert(0, chunk);
        proof {
            assert(self@ =~= seq![c] + old(self)@);
        }
    }

    /// Adds a chunk after the others.
    pub fn push_back(&mut self, chunk: StringChunk)
        ensures
            final(self)@ == old(self)@.push(chunk@),
    {
        let ghost c = chunk@;
        self.chunks.push(chunk);
        proof {
            assert(self@ =~= old(self)@.push(c));
        }
    }

    /// Writes the chunks to the sink one after another, each escaped where it is text.
    /// The first write drops a character that an earlier chunk of UTF-8 left
    /// unfinished, writing U+FFFD in its place.
    pub fn encode(self, sink: &mut StreamingHandlerSink)
        requires
            old(sink).wf(),
        ensures
            final(sink).wf(),
            final(sink).target() == old(sink).target(),
            final(sink).written() == old(sink).written() + (if self@.len() > 0 && old(sink).pending().len() > 0 {
                emit(old(sink).target(), replacement_char_bytes())
            } else {
                Seq::empty()
            }) + chunks_emit(old(sink).target(), self@),
            final(sink).pending() == (if self@.len() > 0 {
                Seq::<u8>::empty()
            } else {
                old(sink).pending()
            }),
    {
        let ghost t = sink.target();
        let ghost all = self@;
        let ghost lead: Seq<u8> = if self@.len() > 0 && old(sink).pending().len() > 0 {
            emit(t, replacement_char_bytes())
        } else {
            Seq::empty()
        };
        let mut i: usize = 0;
        proof {
            assert(all.take(0) =~= Seq::<(Seq<char>, ContentType)>::empty());
        }
        while i < self.chunks.len()
            invariant
                sink.wf(),
                sink.target() == t,
                t == old(sink).target(),
                all == self@,
                all.len() == self.chunks@.len(),
                i <= all.len(),
                i > 0 ==> sink.pending() == Seq::<u8>::empty(),
                i == 0 ==> sink.pending() == old(sink).pending() && sink.written() == old(sink).written(),
                i > 0 ==> sink.written() == old(sink).written() + lead + chunks_emit(t, all.take(i as int)),
                lead == (if all.len() > 0 && old(sink).pending().len() > 0 {
                    emit(t, replacement_char_bytes())
                } else {
                    Seq::<u8>::empty()
                }),
            decreases all.len() - i,
        {
            let ghost before = sink.written();
            let ghost pending_before = sink.pending();
            match &self.chunks[i] {
                StringChunk::Buffer(content, content_type) => {
                    sink.write_str(content.as_str(), *content_type);
                },
            }
            proof {
                let c = all[i as int];
                assert(self.chunks@[i as int]@ == c);
                assert(all.take(i + 1).drop_last() =~= all.take(i as int));
                assert(all.take(i + 1).last() == c);
                if i == 0 {
                    assert(chunks_emit(t, all.take(0)) =~= Seq::<u8>::empty());
                    assert(sink.written() =~= old(sink).written() + lead + chunks_emit(t, all.take(1)));
                } else {
                    assert(sink.written() =~= old(sink).written() + lead + chunks_emit(t, all.take(i + 1)));
                }
            }
            i = i + 1;
        }
        proof {
            assert(all.take(all.len() as int) =~= all);
            if all.len() == 0 {
                assert(sink.written() =~= old(sink).written() + lead + chunks_emit(t, all));
            }
        }
    }

    /// The chunks, in order.
    pub fn chunks(&self) -> (r: &Vec<StringChunk>)
        ensures
            r@.len() == self@.len(),
            forall|i: int| 0 <= i < r@.len() ==> #[trigger] r@[i]@ == self@[i],
    {
        &self.chunks
    }
}

/// The changes made to a rewritable unit: content inserted before it, its replacement,
/// content inserted after it, and whether it was removed.
#[derive(Debug)]
pub struct MutationsInner {
    pub content_before: DynamicString,
    pub replacement: DynamicString,
    pub content_after: DynamicString,
    pub removed: bool,
}

impl MutationsInner {
    /// No change yet.
    pub open spec fn is_unchanged(&self) -> bool {
        &&& self.content_before@.len() == 0
        &&& self.replacement@.len() == 0
        &&& self.content_after@.len() == 0
        &&& !self.removed
    }

    fn unchanged() -> (r: MutationsInner)
        ensures
            r.is_unchanged(),
    {
        MutationsInner {
            content_before: DynamicString::new(),
            replacement: DynamicString::new(),
            content_after: DynamicString::new(),
            removed: false,
        }
    }

    /// Replaces the unit with the chunk: the unit is removed and the chunk is its only
    /// replacement.
    pub fn replace(&mut self, chunk: StringChunk)
        ensures
            final(self).removed,
            final(self).replacement@ == seq![chunk@],
            final(self).content_before@ == old(self).content_before@,
            final(self).content_after@ == old(self).content_after@,
    {
        self.remove();
        self.replacement.clear();
        self.replacement.push_back(chunk);
        proof {
            assert(self.replacement@ =~= seq![chunk@]);
        }
    }

    /// Removes the unit.
    pub fn remove(&mut self)
        ensures
            final(self).removed,
            final(self).replacement@ == old(self).replacement@,
            final(self).content_before@ == old(self).content_before@,
            final(self).content_after@ == old(self).content_after@,
    {
        self.removed = true;
    }
}

/// What `Mutations::mutate` hands out where the changes made so far are `m`: `m`
/// itself where there are any, else changes that change nothing.
pub open spec fn mutate_gives(m: Option<MutationsInner>, r: MutationsInner) -> bool {
    match m {
        Some(m) => r == m,
        None => r.is_unchanged(),
    }
}

/// Mutating twice, with nothing written in between, is mutating once: the second call
/// hands out the very changes that the first one did, and nothing is reset.
pub proof fn lemma_mutate_twice(m: Option<MutationsInner>, first: MutationsInner, second: MutationsInner)
    requires
        mutate_gives(m, first),
        mutate_gives(Some(first), second),
    ensures
        second == first,
        mutate_gives(m, second),
{
}

/// The changes made to a rewritable unit, allocated on the first change.
#[derive(Debug)]
pub struct Mutations {
    inner: Option<Box<MutationsInner>>,
}

impl Mutations {
    /// The changes, if any were made.
    pub closed spec fn inner(&self) -> Option<MutationsInner> {
        match self.inner {
            Some(b) => Some(*b),
            None => None,
        }
    }

    /// No change.
    pub fn new() -> (r: Mutations)
        ensures
            r.inner() is None,
    {
        Mutations { inner: None }
    }

    /// Takes the changes out, leaving none.
    pub fn take(&mut self) -> (r: Option<Box<MutationsInner>>)
        ensures
            final(self).inner() is None,
            match r {
                Some(b) => old(self).inner() == Some(*b),
                None => old(self).inner() is None,
            },
    {
        self.inner.take()
    }

    /// The changes, where some were made.
    pub fn if_mutated(&mut self) -> (r: Option<&mut MutationsInner>)
        ensures
            match r {
                None => old(self).inner() is None && final(self).inner() is None,
                Some(m) => old(self).inner() == Some(*m) && final(self).inner() == Some(*final(m)),
            },
    {
        match &mut self.inner {
            Some(b) => Some(&mut **b),
            None => None,
        }
    }

    /// The changes, allocated unchanged where none were made yet (see `mutate_gives`).
    pub fn mutate(&mut self) -> (r: &mut MutationsInner)
        ensures
            mutate_gives(old(self).inner(), *r),
            final(self).inner() == Some(*final(r)),
    {
        if self.inner.is_none() {
            return &mut **self.inner.insert(Box::new(MutationsInner::unchanged()));
        }
        &mut **self.inner.as_mut().unwrap()
    }

    /// Whether the unit was removed.
    pub fn removed(&self) -> (r: bool)
        ensures
            r == match self.inner() {
                Some(m) => m.removed,
                None => false,
            },
    {
        match &self.inner {
            Some(inner) => inner.removed,
            None => false,
        }
    }

    /// The content inserted before the unit, its replacement, the content inserted
    /// after it and whether it was removed; nothing where no change was made.
    pub open spec fn changes(&self) -> (Seq<(Seq<char>, ContentType)>, Seq<(Seq<char>, ContentType)>, Seq<(Seq<char>, ContentType)>, bool) {
        match self.inner() {
            Some(m) => (m.content_before@, m.replacement@, m.content_after@, m.removed),
            None => (Seq::empty(), Seq::empty(), Seq::empty(), false),
        }
    }

    /// Writes the unit with its changes: the content inserted before it, the unit's own
    /// bytes (already in the output encoding) unless it was removed, its replacement if
    /// it was, and the content inserted after it. Nothing may be left unfinished in the
    /// sink by an earlier write of UTF-8 chunks.
    pub fn write_unit(self, body: &[u8], sink: &mut StreamingHandlerSink)
        requires
            old(sink).wf(),
            old(sink).pending().len() == 0,
        ensures
            final(sink).wf(),
            final(sink).target() == old(sink).target(),
            final(sink).pending() == Seq::<u8>::empty(),
            final(sink).written() == old(sink).written() + unit_bytes(old(sink).target(), self.changes(), body@),
    {
        let ghost t = sink.target();
        let ghost ch = self.changes();
        let mut m = self;
        match m.take() {
            None => {
                sink.write_raw(body);
                proof {
                    assert(chunks_emit(t, Seq::<(Seq<char>, ContentType)>::empty()) =~= Seq::<u8>::empty());
                    assert(sink.written() =~= old(sink).written() + unit_bytes(t, ch, body@));
                }
            },
            Some(inner) => {
                let inner = *inner;
                let ghost w0 = sink.written();
                inner.content_before.encode(sink);
                let ghost w1 = sink.written();
                if inner.removed {
                    inner.replacement.encode(sink);
                } else {
                    sink.write_raw(body);
                }
                let ghost w2 = sink.written();
                inner.content_after.encode(sink);
                proof {
                    assert(w1 =~= w0 + chunks_emit(t, ch.0));
                    if ch.3 {
                        assert(w2 =~= w1 + chunks_emit(t, ch.1));
                    } else {
                        assert(w2 =~= w1 + body@);
                    }
                    assert(sink.written() =~= old(sink).written() + unit_bytes(t, ch, body@));
                }
            },
        }
    }

    /// Inserts content before the unit, after what was inserted there already.
    pub fn before(&mut self, content: &str, content_type: ContentType)
        ensures
            final(self).changes() == (
                old(self).changes().0.push((content@, content_type)),
                old(self).changes().1,
                old(self).changes().2,
                old(self).changes().3,
            ),
    {
        let m = self.mutate();
        m.content_before.push_back(StringChunk::from_str(content, content_type));
    }

    /// Inserts content right after the unit, before what was inserted there already.
    pub fn after(&mut self, content: &str, content_type: ContentType)
        ensures
            final(self).changes() == (
                old(self).changes().0,
                old(self).changes().1,
                seq![(content@, content_type)] + old(self).changes().2,
                old(self).changes().3,
            ),
    {
        let m = self.mutate();
        m.content_after.push_front(StringChunk::from_str(content, content_type));
    }

    /// Replaces the unit with the content: it is removed, and the content is its only
    /// replacement.
    pub fn replace(&mut self, content: &str, content_type: ContentType)
        ensures
            final(self).changes() == (
                old(self).changes().0,
                seq![(content@, content_type)],
                old(self).changes().2,
                true,
            ),
    {
        let m = self.mutate();
        m.replace(StringChunk::from_str(content, content_type));
    }

    /// Removes the unit.
    pub fn remove(&mut self)
        ensures
            final(self).changes() == (
                old(self).changes().0,
                old(self).changes().1,
                old(self).changes().2,
                true,
            ),
    {
        let m = self.mutate();
        m.remove();
    }

    /// Drops the content inserted after the unit.
    pub fn clear_content_after(&mut self)
        ensures
            final(self).changes() == (
                old(self).changes().0,
                old(self).changes().1,
                Seq::<(Seq<char>, ContentType)>::empty(),
                old(self).changes().3,
            ),
    {
        let m = self.mutate();
        m.content_after.clear();
    }

    /// Drops the content inserted before the unit.
    pub fn clear_content_before(&mut self)
        ensures
            final(self).changes() == (
                Seq::<(Seq<char>, ContentType)>::empty(),
                old(self).changes().1,
                old(self).changes().2,
                old(self).changes().3,
            ),
    {
        let m = self.mutate();
        m.content_before.clear();
    }
}

} // verus!
