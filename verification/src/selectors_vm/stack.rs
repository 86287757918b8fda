use vstd::prelude::*;
use crate::html::{LocalName, LocalNameView, Namespace, local_name_of};
use crate::tag_name::{TagName, lemma_tag_name_hash_matches_name};
use super::program::AddressRange;

verus! {

// ---------------------------------------------------------------------------
// Void elements

/// The standard tags that are void elements: they never have content.
pub open spec fn is_void_tag(t: TagName) -> bool {
    t == TagName::Area || t == TagName::Base || t == TagName::Basefont || t == TagName::Bgsound
        || t == TagName::Br || t == TagName::Col || t == TagName::Embed || t == TagName::Hr
        || t == TagName::Img || t == TagName::Input || t == TagName::Keygen || t == TagName::Link
        || t == TagName::Meta || t == TagName::Param || t == TagName::Source || t == TagName::Track
        || t == TagName::Wbr
}

/// The bytes of `esi:include` or `esi:comment`, the void tags of Edge Side Includes.
pub open spec fn is_esi_void_name(b: Seq<u8>) -> bool {
    b == seq![101u8, 115u8, 105u8, 58u8, 105u8, 110u8, 99u8, 108u8, 117u8, 100u8, 101u8]
        || b == seq![101u8, 115u8, 105u8, 58u8, 99u8, 111u8, 109u8, 109u8, 101u8, 110u8, 116u8]
}

/// An element with this local name is void: a standard void tag, or, where ESI tags are
/// enabled, an ESI `include` or `comment` tag written in lowercase.
pub open spec fn spec_is_void_element(local_name: LocalName, enable_esi_tags: bool) -> bool {
    ||| exists|t: TagName| is_void_tag(t) && local_name@ == LocalNameView::Hash(t.spec_hash())
    ||| enable_esi_tags && (local_name matches LocalName::Bytes(b) && is_esi_void_name(b@))
}

// ---------------------------------------------------------------------------
// Which elements are void, by name

/// The names of the HTML void elements, the elements that never have content.
pub open spec fn html_void_element_names() -> Seq<Seq<char>> {
    seq![
        "area"@,
        "base"@,
        "basefont"@,
        "bgsound"@,
        "br"@,
        "col"@,
        "embed"@,
        "hr"@,
        "img"@,
        "input"@,
        "keygen"@,
        "link"@,
        "meta"@,
        "param"@,
        "source"@,
        "track"@,
        "wbr"@,
    ]
}

/// The bytes of a name written in ASCII.
pub open spec fn ascii_bytes(s: Seq<char>) -> Seq<u8> {
    Seq::new(s.len(), |i: int| s[i] as u8)
}

/// An element is void exactly where its local name is that of one of the HTML void
/// element names; or, with ESI tags enabled, where it is held as the bytes
/// `esi:include` or `esi:comment`. So `br` is void, and `div` or `span` are not.
pub proof fn lemma_void_elements_by_name(local_name: LocalName, enable_esi_tags: bool)
    ensures
        spec_is_void_element(local_name, enable_esi_tags) <==> {
            ||| exists|k: int|
                0 <= k < html_void_element_names().len() && local_name@ == local_name_of(
                    ascii_bytes(#[trigger] html_void_element_names()[k]),
                )
            ||| enable_esi_tags && (local_name matches LocalName::Bytes(b) && (b@ == ascii_bytes("esi:include"@)
                || b@ == ascii_bytes("esi:comment"@)))
        },
{
    if exists|t: TagName| is_void_tag(t) && local_name@ == LocalNameView::Hash(t.spec_hash()) {
        lemma_void_tag_is_named(local_name);
    }
    if exists|k: int|
        0 <= k < html_void_element_names().len() && local_name@ == local_name_of(
            ascii_bytes(#[trigger] html_void_element_names()[k]),
        ) {
        lemma_void_name_is_tag(local_name);
    }
    reveal_strlit("esi:include");
    reveal_strlit("esi:comment");
    assert(ascii_bytes("esi:include"@) =~= seq![101u8, 115u8, 105u8, 58u8, 105u8, 110u8, 99u8, 108u8, 117u8, 100u8, 101u8]);
    assert(ascii_bytes("esi:comment"@) =~= seq![101u8, 115u8, 105u8, 58u8, 99u8, 111u8, 109u8, 109u8, 101u8, 110u8, 116u8]);
}

proof fn lemma_void_tag_is_named(local_name: LocalName)
    requires
        exists|t: TagName| is_void_tag(t) && local_name@ == LocalNameView::Hash(t.spec_hash()),
    ensures
        exists|k: int|
            0 <= k < html_void_element_names().len() && local_name@ == local_name_of(
                ascii_bytes(#[trigger] html_void_element_names()[k]),
            ),
{
    lemma_void_name_local_names();
    let names = html_void_element_names();
    let t = choose|t: TagName| is_void_tag(t) && local_name@ == LocalNameView::Hash(t.spec_hash());
    if t == TagName::Area {
        assert(local_name@ == local_name_of(ascii_bytes(names[0])));
    }
    if t == TagName::Base {
        assert(local_name@ == local_name_of(ascii_bytes(names[1])));
    }
    if t == TagName::Basefont {
        assert(local_name@ == local_name_of(ascii_bytes(names[2])));
    }
    if t == TagName::Bgsound {
        assert(local_name@ == local_name_of(ascii_bytes(names[3])));
    }
    if t == TagName::Br {
        assert(local_name@ == local_name_of(ascii_bytes(names[4])));
    }
    if t == TagName::Col {
        assert(local_name@ == local_name_of(ascii_bytes(names[5])));
    }
    if t == TagName::Embed {
        assert(local_name@ == local_name_of(ascii_bytes(names[6])));
    }
    if t == TagName::Hr {
        assert(local_name@ == local_name_of(ascii_bytes(names[7])));
    }
    if t == TagName::Img {
        assert(local_name@ == local_name_of(ascii_bytes(names[8])));
    }
    if t == TagName::Input {
        assert(local_name@ == local_name_of(ascii_bytes(names[9])));
    }
    if t == TagName::Keygen {
        assert(local_name@ == local_name_of(ascii_bytes(names[10])));
    }
    if t == TagName::Link {
        assert(local_name@ == local_name_of(ascii_bytes(names[11])));
    }
    if t == TagName::Meta {
        assert(local_name@ == local_name_of(ascii_bytes(names[12])));
    }
    if t == TagName::Param {
        assert(local_name@ == local_name_of(ascii_bytes(names[13])));
    }
    if t == TagName::Source {
        assert(local_name@ == local_name_of(ascii_bytes(names[14])));
    }
    if t == TagName::Track {
        assert(local_name@ == local_name_of(ascii_bytes(names[15])));
    }
    if t == TagName::Wbr {
        assert(local_name@ == local_name_of(ascii_bytes(names[16])));
    }
}

proof fn lemma_void_name_is_tag(local_name: LocalName)
    requires
        exists|k: int|
            0 <= k < html_void_element_names().len() && local_name@ == local_name_of(
                ascii_bytes(#[trigger] html_void_element_names()[k]),
            ),
    ensures
        exists|t: TagName| is_void_tag(t) && local_name@ == LocalNameView::Hash(t.spec_hash()),
{
    lemma_void_name_local_names();
    let names = html_void_element_names();
    let k = choose|k: int| 0 <= k < names.len() && local_name@ == local_name_of(ascii_bytes(#[trigger] names[k]));
    if k == 0 {
        assert(is_void_tag(TagName::Area) && local_name@ == LocalNameView::Hash(TagName::Area.spec_hash()));
    }
    if k == 1 {
        assert(is_void_tag(TagName::Base) && local_name@ == LocalNameView::Hash(TagName::Base.spec_hash()));
    }
    if k == 2 {
        assert(is_void_tag(TagName::Basefont) && local_name@ == LocalNameView::Hash(TagName::Basefont.spec_hash()));
    }
    if k == 3 {
        assert(is_void_tag(TagName::Bgsound) && local_name@ == LocalNameView::Hash(TagName::Bgsound.spec_hash()));
    }
    if k == 4 {
        assert(is_void_tag(TagName::Br) && local_name@ == LocalNameView::Hash(TagName::Br.spec_hash()));
    }
    if k == 5 {
        assert(is_void_tag(TagName::Col) && local_name@ == LocalNameView::Hash(TagName::Col.spec_hash()));
    }
    if k == 6 {
        assert(is_void_tag(TagName::Embed) && local_name@ == LocalNameView::Hash(TagName::Embed.spec_hash()));
    }
    if k == 7 {
        assert(is_void_tag(TagName::Hr) && local_name@ == LocalNameView::Hash(TagName::Hr.spec_hash()));
    }
    if k == 8 {
        assert(is_void_tag(TagName::Img) && local_name@ == LocalNameView::Hash(TagName::Img.spec_hash()));
    }
    if k == 9 {
        assert(is_void_tag(TagName::Input) && local_name@ == LocalNameView::Hash(TagName::Input.spec_hash()));
    }
    if k == 10 {
        assert(is_void_tag(TagName::Keygen) && local_name@ == LocalNameView::Hash(TagName::Keygen.spec_hash()));
    }
    if k == 11 {
        assert(is_void_tag(TagName::Link) && local_name@ == LocalNameView::Hash(TagName::Link.spec_hash()));
    }
    if k == 12 {
        assert(is_void_tag(TagName::Meta) && local_name@ == LocalNameView::Hash(TagName::Meta.spec_hash()));
    }
    if k == 13 {
        assert(is_void_tag(TagName::Param) && local_name@ == LocalNameView::Hash(TagName::Param.spec_hash()));
    }
    if k == 14 {
        assert(is_void_tag(TagName::Source) && local_name@ == LocalNameView::Hash(TagName::Source.spec_hash()));
    }
    if k == 15 {
        assert(is_void_tag(TagName::Track) && local_name@ == LocalNameView::Hash(TagName::Track.spec_hash()));
    }
    if k == 16 {
        assert(is_void_tag(TagName::Wbr) && local_name@ == LocalNameView::Hash(TagName::Wbr.spec_hash()));
    }
}

/// The local name of each void element name is the hash of its standard tag.
proof fn lemma_void_name_local_names()
    ensures
        html_void_element_names().len() == 17,
        local_name_of(ascii_bytes(html_void_element_names()[0])) == LocalNameView::Hash(TagName::Area.spec_hash()),
        local_name_of(ascii_bytes(html_void_element_names()[1])) == LocalNameView::Hash(TagName::Base.spec_hash()),
        local_name_of(ascii_bytes(html_void_element_names()[2])) == LocalNameView::Hash(TagName::Basefont.spec_hash()),
        local_name_of(ascii_bytes(html_void_element_names()[3])) == LocalNameView::Hash(TagName::Bgsound.spec_hash()),
        local_name_of(ascii_bytes(html_void_element_names()[4])) == LocalNameView::Hash(TagName::Br.spec_hash()),
        local_name_of(ascii_bytes(html_void_element_names()[5])) == LocalNameView::Hash(TagName::Col.spec_hash()),
        local_name_of(ascii_bytes(html_void_element_names()[6])) == LocalNameView::Hash(TagName::Embed.spec_hash()),
        local_name_of(ascii_bytes(html_void_element_names()[7])) == LocalNameView::Hash(TagName::Hr.spec_hash()),
        local_name_of(ascii_bytes(html_void_element_names()[8])) == LocalNameView::Hash(TagName::Img.spec_hash()),
        local_name_of(ascii_bytes(html_void_element_names()[9])) == LocalNameView::Hash(TagName::Input.spec_hash()),
        local_name_of(ascii_bytes(html_void_element_names()[10])) == LocalNameView::Hash(TagName::Keygen.spec_hash()),
        local_name_of(ascii_bytes(html_void_element_names()[11])) == LocalNameView::Hash(TagName::Link.spec_hash()),
        local_name_of(ascii_bytes(html_void_element_names()[12])) == LocalNameView::Hash(TagName::Meta.spec_hash()),
        local_name_of(ascii_bytes(html_void_element_names()[13])) == LocalNameView::Hash(TagName::Param.spec_hash()),
        local_name_of(ascii_bytes(html_void_element_names()[14])) == LocalNameView::Hash(TagName::Source.spec_hash()),
        local_name_of(ascii_bytes(html_void_element_names()[15])) == LocalNameView::Hash(TagName::Track.spec_hash()),
        local_name_of(ascii_bytes(html_void_element_names()[16])) == LocalNameView::Hash(TagName::Wbr.spec_hash()),
{
    lemma_void_names_are_tags();
    lemma_tag_name_hash_matches_name(TagName::Area);
    lemma_tag_name_hash_matches_name(TagName::Base);
    lemma_tag_name_hash_matches_name(TagName::Basefont);
    lemma_tag_name_hash_matches_name(TagName::Bgsound);
    lemma_tag_name_hash_matches_name(TagName::Br);
    lemma_tag_name_hash_matches_name(TagName::Col);
    lemma_tag_name_hash_matches_name(TagName::Embed);
    lemma_tag_name_hash_matches_name(TagName::Hr);
    lemma_tag_name_hash_matches_name(TagName::Img);
    lemma_tag_name_hash_matches_name(TagName::Input);
    lemma_tag_name_hash_matches_name(TagName::Keygen);
    lemma_tag_name_hash_matches_name(TagName::Link);
    lemma_tag_name_hash_matches_name(TagName::Meta);
    lemma_tag_name_hash_matches_name(TagName::Param);
    lemma_tag_name_hash_matches_name(TagName::Source);
    lemma_tag_name_hash_matches_name(TagName::Track);
    lemma_tag_name_hash_matches_name(TagName::Wbr);
}

/// Each void element name is written as the name of its standard tag.
proof fn lemma_void_names_are_tags()
    ensures
        html_void_element_names().len() == 17,
        ascii_bytes(html_void_element_names()[0]) == TagName::Area.spec_name(),
        ascii_bytes(html_void_element_names()[1]) == TagName::Base.spec_name(),
        ascii_bytes(html_void_element_names()[2]) == TagName::Basefont.spec_name(),
        ascii_bytes(html_void_element_names()[3]) == TagName::Bgsound.spec_name(),
        ascii_bytes(html_void_element_names()[4]) == TagName::Br.spec_name(),
        ascii_bytes(html_void_element_names()[5]) == TagName::Col.spec_name(),
        ascii_bytes(html_void_element_names()[6]) == TagName::Embed.spec_name(),
        ascii_bytes(html_void_element_names()[7]) == TagName::Hr.spec_name(),
        ascii_bytes(html_void_element_names()[8]) == TagName::Img.spec_name(),
        ascii_bytes(html_void_element_names()[9]) == TagName::Input.spec_name(),
        ascii_bytes(html_void_element_names()[10]) == TagName::Keygen.spec_name(),
        ascii_bytes(html_void_element_names()[11]) == TagName::Link.spec_name(),
        ascii_bytes(html_void_element_names()[12]) == TagName::Meta.spec_name(),
        ascii_bytes(html_void_element_names()[13]) == TagName::Param.spec_name(),
        ascii_bytes(html_void_element_names()[14]) == TagName::Source.spec_name(),
        ascii_bytes(html_void_element_names()[15]) == TagName::Track.spec_name(),
        ascii_bytes(html_void_element_names()[16]) == TagName::Wbr.spec_name(),
{
    reveal_strlit("area");
    reveal_strlit("base");
    reveal_strlit("basefont");
    reveal_strlit("bgsound");
    reveal_strlit("br");
    reveal_strlit("col");
    reveal_strlit("embed");
    reveal_strlit("hr");
    reveal_strlit("img");
    reveal_strlit("input");
    reveal_strlit("keygen");
    reveal_strlit("link");
    reveal_strlit("meta");
    reveal_strlit("param");
    reveal_strlit("source");
    reveal_strlit("track");
    reveal_strlit("wbr");
    assert(ascii_bytes(html_void_element_names()[0]) =~= TagName::Area.spec_name());
    assert(ascii_bytes(html_void_element_names()[1]) =~= TagName::Base.spec_name());
    assert(ascii_bytes(html_void_element_names()[2]) =~= TagName::Basefont.spec_name());
    assert(ascii_bytes(html_void_element_names()[3]) =~= TagName::Bgsound.spec_name());
    assert(ascii_bytes(html_void_element_names()[4]) =~= TagName::Br.spec_name());
    assert(ascii_bytes(html_void_element_names()[5]) =~= TagName::Col.spec_name());
    assert(ascii_bytes(html_void_element_names()[6]) =~= TagName::Embed.spec_name());
    assert(ascii_bytes(html_void_element_names()[7]) =~= TagName::Hr.spec_name());
    assert(ascii_bytes(html_void_element_names()[8]) =~= TagName::Img.spec_name());
    assert(ascii_bytes(html_void_element_names()[9]) =~= TagName::Input.spec_name());
    assert(ascii_bytes(html_void_element_names()[10]) =~= TagName::Keygen.spec_name());
    assert(ascii_bytes(html_void_element_names()[11]) =~= TagName::Link.spec_name());
    assert(ascii_bytes(html_void_element_names()[12]) =~= TagName::Meta.spec_name());
    assert(ascii_bytes(html_void_element_names()[13]) =~= TagName::Param.spec_name());
    assert(ascii_bytes(html_void_element_names()[14]) =~= TagName::Source.spec_name());
    assert(ascii_bytes(html_void_element_names()[15]) =~= TagName::Track.spec_name());
    assert(ascii_bytes(html_void_element_names()[16]) =~= TagName::Wbr.spec_name());
}

fn is_esi_void_name_exec(b: &Vec<u8>) -> (r: bool)
    ensures
        r == is_esi_void_name(b@),
{
    let ghost inc = seq![101u8, 115u8, 105u8, 58u8, 105u8, 110u8, 99u8, 108u8, 117u8, 100u8, 101u8];
    let ghost com = seq![101u8, 115u8, 105u8, 58u8, 99u8, 111u8, 109u8, 109u8, 101u8, 110u8, 116u8];
    if b.len() != 11 {
        assert(b@ != inc && b@ != com) by {
            assert(inc.len() == 11 && com.len() == 11);
        }
        return false;
    }
    let prefix = b[0] == 101u8 && b[1] == 115u8 && b[2] == 105u8 && b[3] == 58u8;
    let inc_name = b[4] == 105u8 && b[5] == 110u8 && b[6] == 99u8 && b[7] == 108u8 && b[8] == 117u8
        && b[9] == 100u8 && b[10] == 101u8;
    let comment = b[4] == 99u8 && b[5] == 111u8 && b[6] == 109u8 && b[7] == 109u8 && b[8] == 101u8
        && b[9] == 110u8 && b[10] == 116u8;
    proof {
        if prefix && inc_name {
            assert(b@ =~= inc);
        }
        if prefix && comment {
            assert(b@ =~= com);
        }
        if b@ == inc {
            assert(b@[4] == inc[4] && b@[10] == inc[10]);
        }
        if b@ == com {
            assert(b@[4] == com[4] && b@[10] == com[10]);
        }
    }
    prefix && (inc_name || comment)
}

fn tag_is(local_name: &LocalName, t: TagName) -> (r: bool)
    ensures
        r == (local_name@ == LocalNameView::Hash(t.spec_hash())),
{
    local_name.is(t)
}

/// Returns `true` for the local names of void elements.
pub fn is_void_element(local_name: &LocalName, enable_esi_tags: bool) -> (r: bool)
    ensures
        r == spec_is_void_element(*local_name, enable_esi_tags),
{
    // The most common elements first.
    if tag_is(local_name, TagName::Div) || tag_is(local_name, TagName::A) || tag_is(local_name, TagName::Span)
        || tag_is(local_name, TagName::Li) {
        proof {
            if exists|t: TagName| is_void_tag(t) && local_name@ == LocalNameView::Hash(t.spec_hash()) {
                let t = choose|t: TagName| is_void_tag(t) && local_name@ == LocalNameView::Hash(t.spec_hash());
                assert(is_void_tag(t));
            }
        }
        return false;
    }
    let voids = [
        TagName::Area, TagName::Base, TagName::Basefont, TagName::Bgsound, TagName::Br, TagName::Col,
        TagName::Embed, TagName::Hr, TagName::Img, TagName::Input, TagName::Keygen, TagName::Link,
        TagName::Meta, TagName::Param, TagName::Source, TagName::Track, TagName::Wbr,
    ];
    let mut i: usize = 0;
    while i < 17
        invariant
            i <= 17,
            voids@.len() == 17,
            forall|k: int| 0 <= k < 17 ==> is_void_tag(#[trigger] voids@[k]),
            forall|t: TagName| is_void_tag(t) ==> exists|k: int| 0 <= k < 17 && voids@[k] == t,
            forall|k: int| 0 <= k < i ==> local_name@ != LocalNameView::Hash((#[trigger] voids@[k]).spec_hash()),
        decreases 17 - i,
    {
        if tag_is(local_name, voids[i]) {
            return true;
        }
        i = i + 1;
    }
    proof {
        assert forall|t: TagName| is_void_tag(t) implies local_name@ != LocalNameView::Hash(t.spec_hash()) by {
            let k = choose|k: int| 0 <= k < 17 && voids@[k] == t;
            assert(local_name@ != LocalNameView::Hash(voids@[k].spec_hash()));
        }
    }
    if enable_esi_tags {
        match local_name {
            LocalName::Bytes(b) => is_esi_void_name_exec(b),
            LocalName::Hash(_) => false,
        }
    } else {
        false
    }
}

// ---------------------------------------------------------------------------
// Child counters

/// Counts the children of an element seen so far.
#[derive(Debug, Copy, Clone, PartialEq, Eq, Structural)]
pub struct ChildCounter {
    pub cumulative: i32,
}

impl ChildCounter {
    /// A counter that has seen one child.
    pub fn new_and_inc() -> (r: ChildCounter)
        ensures
            r.cumulative == 1,
    {
        ChildCounter { cumulative: 1 }
    }

    /// Counts one more child.
    pub fn inc(&mut self)
        requires
            old(self).cumulative < i32::MAX,
        ensures
            final(self).cumulative == old(self).cumulative + 1,
    {
        self.cumulative = self.cumulative + 1;
    }
}

/// A child counter of the stack frame at `index`.
#[derive(Debug, Copy, Clone, PartialEq, Eq, Structural)]
pub struct CounterItem {
    pub counter: ChildCounter,
    pub index: usize,
}

/// The counters of one element name, one per stack frame where such children were
/// seen; the current one is that of the deepest frame.
#[derive(Debug)]
pub struct CounterList {
    pub items: Vec<CounterItem>,
    pub current: CounterItem,
}

impl CounterList {
    /// The counters of a name first seen in the frame at `start`.
    pub fn new(start: usize) -> (r: CounterList)
        ensures
            r.items@.len() == 0,
            r.current.counter.cumulative == 1,
            r.current.index == start,
    {
        CounterList { items: Vec::new(), current: CounterItem { counter: ChildCounter::new_and_inc(), index: start } }
    }
}

impl CounterList {
    /// The counters, the current one last.
    pub open spec fn view(&self) -> Seq<CounterItem> {
        self.items@.push(self.current)
    }
}

/// The counters of a name after one more child of that name is seen in the frame at
/// `index`: the current counter goes up where it is that frame's, else a new one starts.
pub open spec fn added_child(counters: Option<Seq<CounterItem>>, index: usize) -> Seq<CounterItem> {
    match counters {
        None => seq![CounterItem { counter: ChildCounter { cumulative: 1 }, index }],
        Some(st) => if st.last().index == index {
            st.drop_last().push(
                CounterItem { counter: ChildCounter { cumulative: (st.last().counter.cumulative + 1) as i32 }, index },
            )
        } else {
            st.push(CounterItem { counter: ChildCounter { cumulative: 1 }, index })
        },
    }
}

/// The counters left when the frames deeper than `index` are closed.
pub open spec fn popped_to(counters: Seq<CounterItem>, index: usize) -> Seq<CounterItem>
    decreases counters.len(),
{
    if counters.len() == 0 {
        counters
    } else if counters.last().index > index {
        popped_to(counters.drop_last(), index)
    } else {
        counters
    }
}

/// The counters of every name when the frames deeper than `index` are closed: a name
/// left with none goes.
pub open spec fn popped_map(m: Map<LocalNameView, Seq<CounterItem>>, index: usize) -> Map<LocalNameView, Seq<CounterItem>> {
    Map::new(
        |k: LocalNameView| m.contains_key(k) && popped_to(m[k], index).len() > 0,
        |k: LocalNameView| popped_to(m[k], index),
    )
}

/// Closing frames leaves a prefix of a name's counters whose current counter belongs
/// to a frame that is still open.
pub proof fn lemma_popped_to(counters: Seq<CounterItem>, index: usize)
    ensures
        popped_to(counters, index).len() <= counters.len(),
        popped_to(counters, index) == counters.subrange(0, popped_to(counters, index).len() as int),
        popped_to(counters, index).len() > 0 ==> popped_to(counters, index).last().index <= index,
    decreases counters.len(),
{
    if counters.len() > 0 && counters.last().index > index {
        lemma_popped_to(counters.drop_last(), index);
        let p = popped_to(counters.drop_last(), index);
        assert(p == counters.drop_last().subrange(0, p.len() as int));
        assert(counters.drop_last().subrange(0, p.len() as int) =~= counters.subrange(0, p.len() as int));
    } else {
        assert(counters.subrange(0, counters.len() as int) =~= counters);
    }
}

/// Right after a child is counted, the counters of its name report it for the frame it
/// was counted in: one more than before where that frame had such children, else one.
pub proof fn lemma_counted_child_is_reported(
    m: Map<LocalNameView, Seq<CounterItem>>,
    name: LocalNameView,
    index: usize,
)
    requires
        forall|k: LocalNameView| #[trigger] m.contains_key(k) ==> m[k].len() > 0,
        m.contains_key(name) && m[name].last().index == index ==> m[name].last().counter.cumulative < i32::MAX,
    ensures
        ({
            let after = m.insert(name, added_child(if m.contains_key(name) { Some(m[name]) } else { None }, index));
            &&& after.contains_key(name)
            &&& after[name].last().index == index
            &&& after[name].last().counter.cumulative == (if m.contains_key(name) && m[name].last().index == index {
                m[name].last().counter.cumulative + 1
            } else {
                1
            })
            &&& forall|k: LocalNameView| k != name ==> #[trigger] after.contains_key(k) == m.contains_key(k)
                && (m.contains_key(k) ==> after[k] == m[k])
        }),
{
}

/// The entry of the key `k` in a list of entries.
pub open spec fn has_key(s: Seq<(LocalNameView, Seq<CounterItem>)>, k: LocalNameView) -> bool {
    exists|i: int| 0 <= i < s.len() && (#[trigger] s[i]).0 == k
}

/// No key occurs twice in the list of entries.
pub open spec fn distinct_keys(s: Seq<(LocalNameView, Seq<CounterItem>)>) -> bool {
    forall|i: int, j: int| 0 <= i < s.len() && 0 <= j < s.len() && i != j ==> (#[trigger] s[i]).0 != (#[trigger] s[j]).0
}

/// The map that a list of entries stands for.
pub open spec fn entries_map(s: Seq<(LocalNameView, Seq<CounterItem>)>) -> Map<LocalNameView, Seq<CounterItem>> {
    Map::new(
        |k: LocalNameView| has_key(s, k),
        |k: LocalNameView| s[choose|i: int| 0 <= i < s.len() && (#[trigger] s[i]).0 == k].1,
    )
}

/// In a list with distinct keys, the map gives each key the value of its entry.
pub proof fn lemma_entries_map(s: Seq<(LocalNameView, Seq<CounterItem>)>, i: int)
    requires
        distinct_keys(s),
        0 <= i < s.len(),
    ensures
        entries_map(s).contains_key(s[i].0),
        entries_map(s)[s[i].0] == s[i].1,
{
    let k = s[i].0;
    assert(has_key(s, k));
    let c = choose|j: int| 0 <= j < s.len() && (#[trigger] s[j]).0 == k;
    assert(c == i);
}

/// Per element name, the counters of the children of that name seen in each open frame.
/// Each name occurs once.
#[derive(Debug)]
pub struct TypedChildCounterMap {
    entries: Vec<(LocalName, CounterList)>,
}

impl TypedChildCounterMap {
    /// The entries as keys and counters.
    pub closed spec fn entries_view(&self) -> Seq<(LocalNameView, Seq<CounterItem>)> {
        Seq::new(self.entries@.len(), |i: int| (self.entries@[i].0@, self.entries@[i].1.view()))
    }

    /// The counters of each name, the current one last.
    pub closed spec fn view(&self) -> Map<LocalNameView, Seq<CounterItem>> {
        entries_map(self.entries_view())
    }

    /// No name occurs twice.
    pub closed spec fn wf(&self) -> bool {
        distinct_keys(self.entries_view())
    }

    /// Every name's counters are there, none of them empty.
    pub proof fn lemma_nonempty(&self)
        requires
            self.wf(),
        ensures
            forall|k: LocalNameView| #[trigger] self@.contains_key(k) ==> self@[k].len() > 0,
    {
        let s = self.entries_view();
        assert forall|k: LocalNameView| #[trigger] self@.contains_key(k) implies self@[k].len() > 0 by {
            let i = choose|i: int| 0 <= i < s.len() && (#[trigger] s[i]).0 == k;
            lemma_entries_map(s, i);
        }
    }

    /// No counter yet.
    pub fn new() -> (r: TypedChildCounterMap)
        ensures
            r.wf(),
            r@ == Map::<LocalNameView, Seq<CounterItem>>::empty(),
    {
        let r = TypedChildCounterMap { entries: Vec::new() };
        proof {
            assert(r@ =~= Map::<LocalNameView, Seq<CounterItem>>::empty());
        }
        r
    }

    /// The position of the entry of `name`.
    fn position(&self, name: &LocalName) -> (r: Option<usize>)
        requires
            self.wf(),
        ensures
            match r {
                Some(p) => p < self.entries@.len() && self.entries@[p as int].0@ == name@,
                None => !self@.contains_key(name@),
            },
    {
        let mut i: usize = 0;
        while i < self.entries.len()
            invariant
                i <= self.entries@.len(),
                forall|k: int| 0 <= k < i ==> (#[trigger] self.entries@[k]).0@ != name@,
            decreases self.entries@.len() - i,
        {
            if self.entries[i].0.eq(name) {
                return Some(i);
            }
            i = i + 1;
        }
        proof {
            let s = self.entries_view();
            if has_key(s, name@) {
                let j = choose|j: int| 0 <= j < s.len() && (#[trigger] s[j]).0 == name@;
                assert(self.entries@[j].0@ == name@);
            }
        }
        None
    }

    /// Counts one more child named `name` in the frame at `index`.
    pub fn add_child(&mut self, name: &LocalName, index: usize)
        requires
            old(self).wf(),
            old(self)@.contains_key(name@) && old(self)@[name@].last().index == index
                ==> old(self)@[name@].last().counter.cumulative < i32::MAX,
        ensures
            final(self).wf(),
            final(self)@ == old(self)@.insert(
                name@,
                added_child(
                    if old(self)@.contains_key(name@) {
                        Some(old(self)@[name@])
                    } else {
                        None
                    },
                    index,
                ),
            ),
    {
        let ghost s0 = self.entries_view();
        match self.position(name) {
            None => {
                let fresh = CounterList::new(index);
                proof {
                    assert(fresh.current == CounterItem { counter: ChildCounter { cumulative: 1 }, index });
                    assert(fresh.view() =~= added_child(None, index));
                }
                self.entries.push((name.duplicate(), fresh));
                proof {
                    let s1 = self.entries_view();
                    assert(s1.len() == s0.len() + 1);
                    assert(s1[s0.len() as int] == (name@, added_child(None, index)));
                    assert forall|i: int| 0 <= i < s0.len() implies s1[i] == s0[i] by {
                        assert(self.entries@[i] == old(self).entries@[i]);
                    }
                    assert(s1 =~= s0.push((name@, added_child(None, index))));
                    assert forall|i: int, j: int| 0 <= i < s1.len() && 0 <= j < s1.len() && i != j implies (
                    #[trigger] s1[i]).0 != (#[trigger] s1[j]).0 by {
                        if i == s0.len() as int {
                            assert(!has_key(s0, name@));
                            assert(s1[j] == s0[j]);
                        } else if j == s0.len() as int {
                            assert(!has_key(s0, name@));
                            assert(s1[i] == s0[i]);
                        } else {
                            assert(s1[i] == s0[i] && s1[j] == s0[j]);
                        }
                    }
                    lemma_entries_map(s1, s0.len() as int);
                    assert forall|k: LocalNameView| #[trigger] entries_map(s1).contains_key(k) == old(self)@.insert(
                        name@,
                        added_child(None, index),
                    ).contains_key(k) by {
                        if has_key(s0, k) {
                            let i = choose|i: int| 0 <= i < s0.len() && (#[trigger] s0[i]).0 == k;
                            assert(s1[i] == s0[i]);
                        }
                        if has_key(s1, k) && k != name@ {
                            let i = choose|i: int| 0 <= i < s1.len() && (#[trigger] s1[i]).0 == k;
                            assert(s0[i] == s1[i]);
                        }
                    }
                    assert forall|k: LocalNameView| #[trigger] entries_map(s1).contains_key(k) implies entries_map(
                        s1,
                    )[k] == old(self)@.insert(name@, added_child(None, index))[k] by {
                        if k != name@ {
                            let i = choose|i: int| 0 <= i < s1.len() && (#[trigger] s1[i]).0 == k;
                            lemma_entries_map(s1, i);
                            assert(s0[i] == s1[i]);
                            lemma_entries_map(s0, i);
                        }
                    }
                    assert(entries_map(s1) =~= old(self)@.insert(name@, added_child(None, index)));
                }
            },
            Some(p) => {
                proof {
                    lemma_entries_map(s0, p as int);
                }
                let (ln, mut list) = self.entries.remove(p);
                let ghost before = list.view();
                if list.current.index == index {
                    list.current.counter.inc();
                    proof {
                        assert(list.view() =~= added_child(Some(before), index));
                    }
                } else {
                    let prev = list.current;
                    list.current = CounterItem { counter: ChildCounter::new_and_inc(), index };
                    list.items.push(prev);
                    proof {
                        assert(list.view() =~= added_child(Some(before), index));
                    }
                }
                self.entries.insert(p, (ln, list));
                proof {
                    let s1 = self.entries_view();
                    let v = added_child(Some(before), index);
                    assert(s1 =~= s0.update(p as int, (name@, v)));
                    assert forall|i: int, j: int| 0 <= i < s1.len() && 0 <= j < s1.len() && i != j implies (
                    #[trigger] s1[i]).0 != (#[trigger] s1[j]).0 by {
                        assert(s1[i].0 == s0[i].0 && s1[j].0 == s0[j].0);
                    }
                    assert forall|k: LocalNameView| #[trigger] entries_map(s1).contains_key(k) == old(self)@.insert(
                        name@,
                        v,
                    ).contains_key(k) by {
                        if has_key(s0, k) {
                            let i = choose|i: int| 0 <= i < s0.len() && (#[trigger] s0[i]).0 == k;
                            assert(s1[i].0 == k);
                        }
                        if has_key(s1, k) {
                            let i = choose|i: int| 0 <= i < s1.len() && (#[trigger] s1[i]).0 == k;
                            assert(s0[i].0 == k);
                        }
                    }
                    assert forall|k: LocalNameView| #[trigger] entries_map(s1).contains_key(k) implies entries_map(
                        s1,
                    )[k] == old(self)@.insert(name@, v)[k] by {
                        let i = choose|i: int| 0 <= i < s1.len() && (#[trigger] s1[i]).0 == k;
                        lemma_entries_map(s1, i);
                        if i != p as int {
                            assert(s0[i] == s1[i]);
                            lemma_entries_map(s0, i);
                        }
                    }
                    assert(entries_map(s1) =~= old(self)@.insert(name@, v));
                }
            },
        }
    }

    /// Closes the frames deeper than `index`: the counters of those frames go, and a
    /// name left with none goes too.
    pub fn pop_to(&mut self, index: usize)
        requires
            old(self).wf(),
        ensures
            final(self).wf(),
            final(self)@ == popped_map(old(self)@, index),
    {
        let ghost s0 = self.entries_view();
        let mut rest: Vec<(LocalName, CounterList)> = Vec::new();
        std::mem::swap(&mut rest, &mut self.entries);
        let ghost n = rest@.len();
        let ghost mut j: int = 0;
        while rest.len() > 0
            invariant
                n == s0.len(),
                j + rest@.len() == n,
                0 <= j,
                distinct_keys(s0),
                forall|k: int| 0 <= k < rest@.len() ==> (#[trigger] rest@[k]).0@ == s0[j + k].0 && rest@[k].1.view()
                    == s0[j + k].1,
                distinct_keys(self.entries_view()),
                forall|m: int| #![trigger self.entries_view()[m]] 0 <= m < self.entries_view().len() ==> exists|i: int| 0 <= i < j && (#[trigger] s0[i]).0
                    == self.entries_view()[m].0 && self.entries_view()[m].1 == popped_to(s0[i].1, index),
                forall|i: int| 0 <= i < j && popped_to(s0[i].1, index).len() > 0 ==> has_key(
                    self.entries_view(),
                    (#[trigger] s0[i]).0,
                ),
            decreases rest@.len(),
        {
            let (ln, mut list) = rest.remove(0);
            let ghost orig = list.view();
            let mut keep: bool = true;
            loop
                invariant_except_break
                    keep,
                invariant
                    popped_to(orig, index) == popped_to(list.view(), index),
                ensures
                    keep ==> popped_to(orig, index) == list.view() && list.view().len() > 0,
                    !keep ==> popped_to(orig, index).len() == 0,
                decreases list.items@.len(),
            {
                proof {
                    assert(list.view().drop_last() =~= list.items@);
                }
                if list.current.index <= index {
                    break;
                }
                let ghost items_before = list.items@;
                proof {
                    assert(popped_to(list.view(), index) == popped_to(items_before, index));
                }
                match list.items.pop() {
                    Some(next) => {
                        list.current = next;
                        proof {
                            assert(list.view() =~= items_before);
                        }
                    },
                    None => {
                        proof {
                            assert(list.items@.len() == 0);
                            assert(popped_to(list.view(), index) == popped_to(list.items@, index));
                        }
                        keep = false;
                        break;
                    },
                }
            }
            let ghost before = self.entries_view();
            if keep {
                self.entries.push((ln, list));
            }
            proof {
                let after = self.entries_view();
                if keep {
                    assert(after.len() == before.len() + 1);
                    assert forall|m: int| 0 <= m < before.len() implies after[m] == before[m] by {}
                    assert(after[before.len() as int] == (s0[j].0, popped_to(s0[j].1, index)));
                    assert forall|a: int, b: int| 0 <= a < after.len() && 0 <= b < after.len() && a != b implies (
                    #[trigger] after[a]).0 != (#[trigger] after[b]).0 by {
                        if a == before.len() as int {
                            let i = choose|i: int| 0 <= i < j && (#[trigger] s0[i]).0 == before[b].0
                                && before[b].1 == popped_to(s0[i].1, index);
                            assert(s0[i].0 != s0[j].0);
                        } else if b == before.len() as int {
                            let i = choose|i: int| 0 <= i < j && (#[trigger] s0[i]).0 == before[a].0
                                && before[a].1 == popped_to(s0[i].1, index);
                            assert(s0[i].0 != s0[j].0);
                        } else {
                            assert(after[a] == before[a] && after[b] == before[b]);
                        }
                    }
                    assert forall|m: int| #![trigger after[m]] 0 <= m < after.len() implies exists|i: int| 0 <= i < j + 1 && (
                    #[trigger] s0[i]).0 == after[m].0 && after[m].1 == popped_to(s0[i].1, index) by {
                        if m == before.len() as int {
                            assert(s0[j].0 == after[m].0);
                        } else {
                            assert(after[m] == before[m]);
                            let i = choose|i: int| 0 <= i < j && (#[trigger] s0[i]).0 == before[m].0
                                && before[m].1 == popped_to(s0[i].1, index);
                            assert(0 <= i < j + 1);
                        }
                    }
                    assert forall|i: int| 0 <= i < j + 1 && popped_to(s0[i].1, index).len() > 0 implies has_key(
                        after,
                        (#[trigger] s0[i]).0,
                    ) by {
                        if i == j {
                            assert(after[before.len() as int].0 == s0[i].0);
                        } else {
                            let m = choose|m: int| 0 <= m < before.len() && (#[trigger] before[m]).0 == s0[i].0;
                            assert(after[m] == before[m]);
                        }
                    }
                } else {
                    assert(after =~= before);
                    assert forall|m: int| #![trigger after[m]] 0 <= m < after.len() implies exists|i: int| 0 <= i < j + 1 && (
                    #[trigger] s0[i]).0 == after[m].0 && after[m].1 == popped_to(s0[i].1, index) by {
                        let i = choose|i: int| 0 <= i < j && (#[trigger] s0[i]).0 == before[m].0
                            && before[m].1 == popped_to(s0[i].1, index);
                        assert(0 <= i < j + 1);
                    }
                }
                assert forall|k: int| 0 <= k < rest@.len() implies (#[trigger] rest@[k]).0@ == s0[j + 1 + k].0
                    && rest@[k].1.view() == s0[j + 1 + k].1 by {}
                j = j + 1;
            }
        }
        proof {
            let s1 = self.entries_view();
            let target = popped_map(old(self)@, index);
            assert forall|k: LocalNameView| #[trigger] entries_map(s1).contains_key(k) == target.contains_key(k) by {
                if has_key(s1, k) {
                    let m = choose|m: int| 0 <= m < s1.len() && (#[trigger] s1[m]).0 == k;
                    let i = choose|i: int| 0 <= i < j && (#[trigger] s0[i]).0 == s1[m].0 && s1[m].1 == popped_to(
                        s0[i].1,
                        index,
                    );
                    lemma_entries_map(s0, i);
                    lemma_entries_map(s1, m);
                }
                if has_key(s0, k) {
                    let i = choose|i: int| 0 <= i < s0.len() && (#[trigger] s0[i]).0 == k;
                    lemma_entries_map(s0, i);
                }
            }
            assert forall|k: LocalNameView| #[trigger] entries_map(s1).contains_key(k) implies entries_map(s1)[k]
                == target[k] by {
                let m = choose|m: int| 0 <= m < s1.len() && (#[trigger] s1[m]).0 == k;
                let i = choose|i: int| 0 <= i < j && (#[trigger] s0[i]).0 == s1[m].0 && s1[m].1 == popped_to(
                    s0[i].1,
                    index,
                );
                lemma_entries_map(s0, i);
                lemma_entries_map(s1, m);
            }
            assert(entries_map(s1) =~= target);
        }
    }

    /// The current counter of `name` where it is that of the frame at `index`.
    pub fn get(&self, name: &LocalName, index: usize) -> (r: Option<ChildCounter>)
        requires
            self.wf(),
        ensures
            r == (if self@.contains_key(name@) && self@[name@].last().index == index {
                Some(self@[name@].last().counter)
            } else {
                None
            }),
    {
        match self.position(name) {
            Some(p) => {
                proof {
                    lemma_entries_map(self.entries_view(), p as int);
                }
                let current = self.entries[p].1.current;
                if current.index == index {
                    Some(current.counter)
                } else {
                    None
                }
            },
            None => None,
        }
    }
}

// ---------------------------------------------------------------------------
// The stack of open elements

/// What the selector matcher keeps for a matched element: the payloads of the
/// selectors that matched it, the end tag handler registered for it and whether its
/// content is removed.
#[derive(Debug)]
pub struct ElementDescriptor {
    pub matched_payload: Vec<usize>,
    pub end_tag_handler_idx: Option<usize>,
    pub remove_content: bool,
}

impl ElementDescriptor {
    /// The data of an element that nothing matched yet.
    pub fn new() -> (r: ElementDescriptor)
        ensures
            r.matched_payload@.len() == 0,
            r.end_tag_handler_idx is None,
            !r.remove_content,
    {
        ElementDescriptor { matched_payload: Vec::new(), end_tag_handler_idx: None, remove_content: false }
    }
}

/// How a start tag is treated on the stack of open elements.
#[derive(Debug, Copy, Clone, PartialEq, Eq, Structural)]
pub enum StackDirective {
    Push,
    PushIfNotSelfClosing,
    PopImmediately,
}

/// An open element: its local name, its data, the instruction sets that its children
/// are matched against and those that all of its descendants are.
#[derive(Debug)]
pub struct StackItem {
    pub local_name: LocalName,
    pub element_data: ElementDescriptor,
    pub jumps: Vec<AddressRange>,
    pub hereditary_jumps: Vec<AddressRange>,
    pub has_ancestor_with_hereditary_jumps: bool,
    pub child_counter: ChildCounter,
}

impl StackItem {
    /// An item for an element that nothing matched yet.
    pub fn new(local_name: LocalName) -> (r: StackItem)
        ensures
            r.local_name == local_name,
            r.element_data.matched_payload@.len() == 0,
            r.element_data.end_tag_handler_idx is None,
            !r.element_data.remove_content,
            r.jumps@.len() == 0,
            r.hereditary_jumps@.len() == 0,
            !r.has_ancestor_with_hereditary_jumps,
            r.child_counter.cumulative == 0,
    {
        StackItem {
            local_name,
            element_data: ElementDescriptor::new(),
            jumps: Vec::new(),
            hereditary_jumps: Vec::new(),
            has_ancestor_with_hereditary_jumps: false,
            child_counter: ChildCounter { cumulative: 0 },
        }
    }

    /// The item, detached from the input it was read from.
    pub fn into_owned(self) -> (r: StackItem)
        ensures
            r == self,
    {
        self
    }
}

/// The stack directive for an element: void HTML elements are popped at once, other
/// HTML elements are pushed, and foreign elements are pushed unless self-closing.
pub open spec fn spec_stack_directive(local_name: LocalName, ns: Namespace, enable_esi_tags: bool) -> StackDirective {
    if ns == Namespace::Html {
        if spec_is_void_element(local_name, enable_esi_tags) {
            StackDirective::PopImmediately
        } else {
            StackDirective::Push
        }
    } else {
        StackDirective::PushIfNotSelfClosing
    }
}

/// The index of the last item with the given local name.
pub open spec fn last_index_of(items: Seq<StackItem>, ln: LocalNameView) -> Option<int>
    decreases items.len(),
{
    if items.len() == 0 {
        None
    } else if items.last().local_name@ == ln {
        Some(items.len() - 1)
    } else {
        last_index_of(items.drop_last(), ln)
    }
}

/// The item pushed on top of `items`, which knows whether an open element has
/// hereditary jumps.
pub open spec fn pushed(items: Seq<StackItem>, item: StackItem) -> bool {
    &&& item.local_name == item.local_name
    &&& item.has_ancestor_with_hereditary_jumps == (items.len() > 0 && (
        items.last().has_ancestor_with_hereditary_jumps || items.last().hereditary_jumps@.len() > 0))
}

/// What is found is an item with that name.
pub proof fn lemma_last_index_of(items: Seq<StackItem>, ln: LocalNameView)
    ensures
        match last_index_of(items, ln) {
            Some(i) => 0 <= i < items.len() && items[i].local_name@ == ln
                && forall|k: int| i < k < items.len() ==> (#[trigger] items[k]).local_name@ != ln,
            None => forall|k: int| 0 <= k < items.len() ==> (#[trigger] items[k]).local_name@ != ln,
        },
    decreases items.len(),
{
    if items.len() > 0 {
        lemma_last_index_of(items.drop_last(), ln);
        assert forall|k: int| 0 <= k < items.len() - 1 implies #[trigger] items[k] == items.drop_last()[k] by {}
    }
}

/// The index of the last item with the given local name.
fn rposition(items: &Vec<StackItem>, local_name: &LocalName) -> (r: Option<usize>)
    ensures
        match r {
            Some(x) => last_index_of(items@, local_name@) == Some(x as int),
            None => last_index_of(items@, local_name@) is None,
        },
{
    let mut i: usize = items.len();
    proof {
        assert(items@.subrange(0, i as int) =~= items@);
    }
    while i > 0
        invariant
            i <= items@.len(),
            last_index_of(items@, local_name@) == last_index_of(items@.subrange(0, i as int), local_name@),
        decreases i,
    {
        proof {
            assert(items@.subrange(0, i as int).drop_last() =~= items@.subrange(0, i - 1));
        }
        if items[i - 1].local_name.eq(local_name) {
            return Some(i - 1);
        }
        i = i - 1;
    }
    None
}

/// A range is among the active hereditary jumps.
pub open spec fn has_range(active: Seq<(AddressRange, usize)>, r: AddressRange) -> bool {
    exists|k: int| 0 <= k < active.len() && (#[trigger] active[k]).0 == r
}

/// The active hereditary jumps once an item at `depth` with hereditary jumps `rs` is
/// pushed: each range not active yet becomes active, with that depth.
pub open spec fn add_active_ranges(active: Seq<(AddressRange, usize)>, rs: Seq<AddressRange>, depth: usize) -> Seq<
    (AddressRange, usize),
>
    decreases rs.len(),
{
    if rs.len() == 0 {
        active
    } else {
        let a = add_active_ranges(active, rs.drop_last(), depth);
        if has_range(a, rs.last()) {
            a
        } else {
            a.push((rs.last(), depth))
        }
    }
}

/// The active hereditary jumps introduced at depths below `index`, in order.
pub open spec fn active_below(active: Seq<(AddressRange, usize)>, index: int) -> Seq<(AddressRange, usize)>
    decreases active.len(),
{
    if active.len() == 0 {
        active
    } else if active.last().1 < index {
        active_below(active.drop_last(), index).push(active.last())
    } else {
        active_below(active.drop_last(), index)
    }
}

/// No range is active twice.
pub open spec fn distinct_ranges(active: Seq<(AddressRange, usize)>) -> bool {
    forall|i: int, j: int| 0 <= i < j < active.len() ==> (#[trigger] active[i]).0 != (#[trigger] active[j]).0
}

/// Pushing items keeps every active range once.
pub proof fn lemma_add_active_ranges_distinct(active: Seq<(AddressRange, usize)>, rs: Seq<AddressRange>, depth: usize)
    requires
        distinct_ranges(active),
    ensures
        distinct_ranges(add_active_ranges(active, rs, depth)),
        forall|k: int| 0 <= k < rs.len() ==> has_range(add_active_ranges(active, rs, depth), #[trigger] rs[k]),
        forall|r: AddressRange| #[trigger] has_range(active, r) ==> has_range(add_active_ranges(active, rs, depth), r),
    decreases rs.len(),
{
    if rs.len() > 0 {
        lemma_add_active_ranges_distinct(active, rs.drop_last(), depth);
        let a = add_active_ranges(active, rs.drop_last(), depth);
        let b = add_active_ranges(active, rs, depth);
        if !has_range(a, rs.last()) {
            assert(b == a.push((rs.last(), depth)));
            assert forall|i: int, j: int| 0 <= i < j < b.len() implies (#[trigger] b[i]).0 != (#[trigger] b[j]).0 by {
                if j == a.len() {
                    assert(b[i] == a[i]);
                } else {
                    assert(b[i] == a[i] && b[j] == a[j]);
                }
            }
            assert(b[a.len() as int].0 == rs.last());
            assert forall|r: AddressRange| #[trigger] has_range(a, r) implies has_range(b, r) by {
                let k = choose|k: int| 0 <= k < a.len() && (#[trigger] a[k]).0 == r;
                assert(b[k] == a[k]);
            }
        }
        assert forall|k: int| 0 <= k < rs.len() implies has_range(b, #[trigger] rs[k]) by {
            if k < rs.len() - 1 {
                assert(rs.drop_last()[k] == rs[k]);
            }
        }
    }
}

/// Pruning keeps every active range once, and only those of depths below `index`.
pub proof fn lemma_active_below(active: Seq<(AddressRange, usize)>, index: int)
    requires
        distinct_ranges(active),
    ensures
        distinct_ranges(active_below(active, index)),
        forall|k: int| 0 <= k < active_below(active, index).len() ==> (#[trigger] active_below(active, index)[k]).1
            < index && has_range(active, active_below(active, index)[k].0),
    decreases active.len(),
{
    if active.len() > 0 {
        let d = active.drop_last();
        assert(distinct_ranges(d)) by {
            assert forall|i: int, j: int| 0 <= i < j < d.len() implies (#[trigger] d[i]).0 != (#[trigger] d[j]).0 by {
                assert(d[i] == active[i] && d[j] == active[j]);
            }
        }
        lemma_active_below(d, index);
        let p = active_below(d, index);
        let q = active_below(active, index);
        assert forall|k: int| 0 <= k < p.len() implies has_range(active, #[trigger] p[k].0) by {
            let m = choose|m: int| 0 <= m < d.len() && (#[trigger] d[m]).0 == p[k].0;
            assert(active[m] == d[m]);
        }
        if active.last().1 < index {
            assert(q == p.push(active.last()));
            assert forall|k: int| 0 <= k < p.len() implies (#[trigger] p[k]).0 != active.last().0 by {
                let m = choose|m: int| 0 <= m < d.len() && (#[trigger] d[m]).0 == p[k].0;
                assert(active[m] == d[m]);
                assert(active[m].0 != active[active.len() - 1].0);
            }
            assert forall|i: int, j: int| 0 <= i < j < q.len() implies (#[trigger] q[i]).0 != (#[trigger] q[j]).0 by {
                if j == p.len() {
                    assert(q[i] == p[i]);
                } else {
                    assert(q[i] == p[i] && q[j] == p[j]);
                }
            }
            assert forall|k: int| 0 <= k < q.len() implies (#[trigger] q[k]).1 < index && has_range(active, q[k].0) by {
                if k < p.len() {
                    assert(q[k] == p[k]);
                } else {
                    assert(active[active.len() - 1].0 == q[k].0);
                }
            }
        }
    }
}

/// The active hereditary jumps are those of the open items, each once, with the depth
/// of the shallowest item that has it.
pub open spec fn active_wf(items: Seq<StackItem>, active: Seq<(AddressRange, usize)>) -> bool {
    &&& distinct_ranges(active)
    &&& forall|k: int| 0 <= k < active.len() ==> {
        &&& (#[trigger] active[k]).1 < items.len()
        &&& items[active[k].1 as int].hereditary_jumps@.contains(active[k].0)
        &&& forall|d: int| 0 <= d < active[k].1 ==> !items[d].hereditary_jumps@.contains(active[k].0)
    }
    &&& forall|d: int, r: AddressRange| 0 <= d < items.len() && #[trigger] items[d].hereditary_jumps@.contains(r)
        ==> has_range(active, r)
}

/// What pushing adds: every entry is one that was there, or a range of `rs` that was
/// not active, at `depth`; and what was there stays first.
proof fn lemma_add_active_ranges_entries(active: Seq<(AddressRange, usize)>, rs: Seq<AddressRange>, depth: usize)
    ensures
        add_active_ranges(active, rs, depth).len() >= active.len(),
        add_active_ranges(active, rs, depth).subrange(0, active.len() as int) == active,
        forall|k: int| active.len() <= k < add_active_ranges(active, rs, depth).len() ==> {
            &&& (#[trigger] add_active_ranges(active, rs, depth)[k]).1 == depth
            &&& rs.contains(add_active_ranges(active, rs, depth)[k].0)
            &&& !has_range(active, add_active_ranges(active, rs, depth)[k].0)
        },
    decreases rs.len(),
{
    if rs.len() == 0 {
        assert(active.subrange(0, active.len() as int) =~= active);
    } else {
        lemma_add_active_ranges_entries(active, rs.drop_last(), depth);
        let a = add_active_ranges(active, rs.drop_last(), depth);
        let b = add_active_ranges(active, rs, depth);
        assert forall|k: int| active.len() <= k < a.len() implies rs.contains(#[trigger] a[k].0) by {
            let m = choose|m: int| 0 <= m < rs.drop_last().len() && rs.drop_last()[m] == a[k].0;
            assert(rs[m] == a[k].0);
        }
        if !has_range(a, rs.last()) {
            assert(b.subrange(0, active.len() as int) =~= a.subrange(0, active.len() as int));
            assert(rs.contains(rs.last())) by {
                assert(rs[rs.len() - 1] == rs.last());
            }
            assert(!has_range(active, rs.last())) by {
                if has_range(active, rs.last()) {
                    let m = choose|m: int| 0 <= m < active.len() && (#[trigger] active[m]).0 == rs.last();
                    assert(a[m] == active[m]);
                }
            }
            assert forall|k: int| active.len() <= k < b.len() implies {
                &&& (#[trigger] b[k]).1 == depth
                &&& rs.contains(b[k].0)
                &&& !has_range(active, b[k].0)
            } by {
                if k < a.len() {
                    assert(b[k] == a[k]);
                }
            }
        }
    }
}

/// Pruning keeps exactly the entries of depths below `index`.
proof fn lemma_active_below_entries(active: Seq<(AddressRange, usize)>, index: int)
    ensures
        forall|m: int| #![trigger active_below(active, index)[m]] 0 <= m < active_below(active, index).len()
            ==> exists|k: int| 0 <= k < active.len() && #[trigger] active[k] == active_below(active, index)[m],
        forall|k: int| 0 <= k < active.len() && (#[trigger] active[k]).1 < index ==> exists|m: int| 0 <= m
            < active_below(active, index).len() && active_below(active, index)[m] == active[k],
    decreases active.len(),
{
    if active.len() > 0 {
        let d = active.drop_last();
        lemma_active_below_entries(d, index);
        let p = active_below(d, index);
        let q = active_below(active, index);
        assert forall|m: int| #![trigger q[m]] 0 <= m < q.len() implies exists|k: int| 0 <= k < active.len()
            && #[trigger] active[k] == q[m] by {
            if m < p.len() {
                assert(q[m] == p[m]);
                let k = choose|k: int| 0 <= k < d.len() && #[trigger] d[k] == p[m];
                assert(active[k] == d[k]);
            } else {
                assert(active[active.len() - 1] == q[m]);
            }
        }
        assert forall|k: int| 0 <= k < active.len() && (#[trigger] active[k]).1 < index implies exists|m: int| 0
            <= m < q.len() && q[m] == active[k] by {
            if k < d.len() {
                assert(d[k] == active[k]);
                let m = choose|m: int| 0 <= m < p.len() && p[m] == d[k];
                assert(q[m] == p[m]);
            } else {
                assert(q[p.len() as int] == active[k]);
            }
        }
    }
}

/// Pushing an item keeps the active jumps those of the open items, at their shallowest
/// depth.
pub proof fn lemma_push_keeps_active_wf(
    items: Seq<StackItem>,
    active: Seq<(AddressRange, usize)>,
    new_items: Seq<StackItem>,
    rs: Seq<AddressRange>,
)
    requires
        active_wf(items, active),
        new_items.len() == items.len() + 1,
        new_items.len() <= usize::MAX,
        new_items.subrange(0, items.len() as int) == items,
        new_items.last().hereditary_jumps@ == rs,
    ensures
        active_wf(new_items, add_active_ranges(active, rs, items.len() as usize)),
{
    let n = items.len();
    let b = add_active_ranges(active, rs, n as usize);
    lemma_add_active_ranges_distinct(active, rs, n as usize);
    lemma_add_active_ranges_entries(active, rs, n as usize);
    assert forall|d: int| 0 <= d < n implies #[trigger] new_items[d] == items[d] by {
        assert(new_items.subrange(0, n as int)[d] == new_items[d]);
    }
    assert forall|k: int| 0 <= k < b.len() implies {
        &&& (#[trigger] b[k]).1 < new_items.len()
        &&& new_items[b[k].1 as int].hereditary_jumps@.contains(b[k].0)
        &&& forall|d: int| 0 <= d < b[k].1 ==> !new_items[d].hereditary_jumps@.contains(b[k].0)
    } by {
        if k < active.len() {
            assert(b[k] == b.subrange(0, active.len() as int)[k]);
            assert(b[k] == active[k]);
            assert(new_items[active[k].1 as int] == items[active[k].1 as int]);
            assert forall|d: int| 0 <= d < b[k].1 implies !new_items[d].hereditary_jumps@.contains(b[k].0) by {
                assert(new_items[d] == items[d]);
            }
        } else {
            assert(new_items[n as int] == new_items.last());
            assert(b[k].1 == n);
            assert(rs.contains(b[k].0));
            assert(new_items[b[k].1 as int].hereditary_jumps@ == rs);
            assert forall|d: int| 0 <= d < b[k].1 implies !new_items[d].hereditary_jumps@.contains(b[k].0) by {
                assert(new_items[d] == items[d]);
                if new_items[d].hereditary_jumps@.contains(b[k].0) {
                    assert(items[d].hereditary_jumps@.contains(b[k].0));
                }
            }
        }
    }
    assert forall|d: int, r: AddressRange| 0 <= d < new_items.len() && #[trigger] new_items[d].hereditary_jumps@.contains(r)
        implies has_range(b, r) by {
        if d < n {
            assert(items[d].hereditary_jumps@.contains(r));
            assert(has_range(active, r));
        } else {
            assert(new_items[d] == new_items.last());
            let t = choose|t: int| 0 <= t < rs.len() && rs[t] == r;
            assert(has_range(b, rs[t]));
        }
    }
}

/// Closing the items from `index` on keeps the active jumps those of the open items,
/// at their shallowest depth.
pub proof fn lemma_pop_keeps_active_wf(items: Seq<StackItem>, active: Seq<(AddressRange, usize)>, index: int)
    requires
        active_wf(items, active),
        0 <= index <= items.len(),
    ensures
        active_wf(items.subrange(0, index), active_below(active, index)),
{
    let q = active_below(active, index);
    let it = items.subrange(0, index);
    lemma_active_below(active, index);
    lemma_active_below_entries(active, index);
    assert forall|k: int| 0 <= k < q.len() implies {
        &&& (#[trigger] q[k]).1 < it.len()
        &&& it[q[k].1 as int].hereditary_jumps@.contains(q[k].0)
        &&& forall|d: int| 0 <= d < q[k].1 ==> !it[d].hereditary_jumps@.contains(q[k].0)
    } by {
        let j = choose|j: int| 0 <= j < active.len() && #[trigger] active[j] == q[k];
        assert(it[q[k].1 as int] == items[q[k].1 as int]);
        assert forall|d: int| 0 <= d < q[k].1 implies !it[d].hereditary_jumps@.contains(q[k].0) by {
            assert(it[d] == items[d]);
        }
    }
    assert forall|d: int, r: AddressRange| 0 <= d < it.len() && #[trigger] it[d].hereditary_jumps@.contains(r)
        implies has_range(q, r) by {
        assert(it[d] == items[d]);
        assert(has_range(active, r));
        let j = choose|j: int| 0 <= j < active.len() && (#[trigger] active[j]).0 == r;
        if active[j].1 > d {
            assert(!items[d].hereditary_jumps@.contains(active[j].0));
        }
        assert(active[j].1 < index);
        let m = choose|m: int| 0 <= m < q.len() && q[m] == active[j];
        assert(q[m].0 == r);
    }
}

/// Whether the range is active.
fn contains_range(active: &Vec<(AddressRange, usize)>, r: AddressRange) -> (b: bool)
    ensures
        b == has_range(active@, r),
{
    let mut i: usize = 0;
    while i < active.len()
        invariant
            i <= active@.len(),
            forall|k: int| 0 <= k < i ==> (#[trigger] active@[k]).0 != r,
        decreases active@.len() - i,
    {
        if active[i].0 == r {
            return true;
        }
        i = i + 1;
    }
    false
}

/// What the matcher knows of an element's place among its siblings: how many of them
/// were seen, it included, and, where children are counted by name, how many of its
/// name.
#[derive(Debug, Copy, Clone, PartialEq, Eq, Structural)]
pub struct SelectorState {
    pub cumulative: ChildCounter,
    pub typed: Option<ChildCounter>,
}

/// The stack of open elements, with the counters of the children seen at each level.
#[derive(Debug)]
pub struct Stack {
    pub items: Vec<StackItem>,
    /// The children of the document seen so far.
    pub root_child_counter: ChildCounter,
    /// The children counted by name, where that is asked for.
    pub typed_child_counters: Option<TypedChildCounterMap>,
    /// The hereditary jumps of the open items, each once, with the depth of the
    /// shallowest item that brought it.
    pub active_hereditary_jumps: Vec<(AddressRange, usize)>,
}

impl Stack {
    /// The counters by name, where children are counted by name.
    pub open spec fn typed_view(&self) -> Option<Map<LocalNameView, Seq<CounterItem>>> {
        match self.typed_child_counters {
            Some(t) => Some(t@),
            None => None,
        }
    }

    /// The counters by name are well formed, and the active hereditary jumps are those
    /// of the open items, each once, with the depth of the shallowest item that has it.
    pub open spec fn wf(&self) -> bool {
        &&& match self.typed_child_counters {
            Some(t) => t.wf(),
            None => true,
        }
        &&& active_wf(self.items@, self.active_hereditary_jumps@)
    }

    /// The counter of the children of the deepest open element, or of the document.
    pub open spec fn current_counter(&self) -> ChildCounter {
        if self.items@.len() > 0 {
            self.items@.last().child_counter
        } else {
            self.root_child_counter
        }
    }

    /// An empty stack; children are counted by name where `enable_nth_of_type` asks.
    pub fn new(enable_nth_of_type: bool) -> (r: Stack)
        ensures
            r.wf(),
            r.items@.len() == 0,
            r.root_child_counter.cumulative == 0,
            r.active_hereditary_jumps@.len() == 0,
            r.typed_view() == (if enable_nth_of_type {
                Some(Map::<LocalNameView, Seq<CounterItem>>::empty())
            } else {
                None
            }),
    {
        let typed_child_counters = if enable_nth_of_type {
            Some(TypedChildCounterMap::new())
        } else {
            None
        };
        Stack {
            items: Vec::new(),
            root_child_counter: ChildCounter { cumulative: 0 },
            typed_child_counters,
            active_hereditary_jumps: Vec::new(),
        }
    }

    /// Counts a child named `name` of the deepest open element (or of the document),
    /// before it is pushed.
    pub fn add_child(&mut self, name: &LocalName)
        requires
            old(self).wf(),
            old(self).current_counter().cumulative < i32::MAX,
            match old(self).typed_view() {
                Some(m) => m.contains_key(name@) && m[name@].last().index == old(self).items@.len()
                    ==> m[name@].last().counter.cumulative < i32::MAX,
                None => true,
            },
        ensures
            final(self).wf(),
            final(self).current_counter().cumulative == old(self).current_counter().cumulative + 1,
            old(self).items@.len() > 0 ==> final(self).items@ == old(self).items@.update(
                old(self).items@.len() - 1,
                StackItem { child_counter: final(self).current_counter(), ..old(self).items@.last() },
            ) && final(self).root_child_counter == old(self).root_child_counter,
            old(self).items@.len() == 0 ==> final(self).items@ == old(self).items@,
            final(self).active_hereditary_jumps == old(self).active_hereditary_jumps,
            final(self).typed_view() == match old(self).typed_view() {
                Some(m) => Some(
                    m.insert(
                        name@,
                        added_child(
                            if m.contains_key(name@) {
                                Some(m[name@])
                            } else {
                                None
                            },
                            old(self).items@.len() as usize,
                        ),
                    ),
                ),
                None => None,
            },
    {
        let n = self.items.len();
        if n > 0 {
            self.items[n - 1].child_counter.inc();
        } else {
            self.root_child_counter.inc();
        }
        match &mut self.typed_child_counters {
            Some(counters) => counters.add_child(name, n),
            None => {},
        }
    }

    /// Where an element named `name`, about to be pushed, stands among its siblings.
    pub fn build_state(&self, name: &LocalName) -> (r: SelectorState)
        requires
            self.wf(),
        ensures
            r.cumulative == self.current_counter(),
            r.typed == match self.typed_view() {
                Some(m) => if m.contains_key(name@) && m[name@].last().index == self.items@.len() {
                    Some(m[name@].last().counter)
                } else {
                    None
                },
                None => None,
            },
    {
        let n = self.items.len();
        let cumulative = if n > 0 {
            self.items[n - 1].child_counter
        } else {
            self.root_child_counter
        };
        let typed = match &self.typed_child_counters {
            Some(counters) => counters.get(name, n),
            None => None,
        };
        SelectorState { cumulative, typed }
    }

    /// How the start tag of the item is treated.
    pub fn get_stack_directive(item: &StackItem, ns: Namespace, enable_esi_tags: bool) -> (r: StackDirective)
        ensures
            r == spec_stack_directive(item.local_name, ns, enable_esi_tags),
    {
        match ns {
            Namespace::Html => {
                if is_void_element(&item.local_name, enable_esi_tags) {
                    StackDirective::PopImmediately
                } else {
                    StackDirective::Push
                }
            },
            _ => StackDirective::PushIfNotSelfClosing,
        }
    }

    /// Pops the items up to the last one with the given local name, that one included,
    /// and returns their data, deepest last; an end tag with no open element of its
    /// name pops nothing.
    pub fn pop_up_to(&mut self, local_name: &LocalName) -> (r: Vec<ElementDescriptor>)
        requires
            old(self).wf(),
        ensures
            final(self).wf(),
            final(self).root_child_counter == old(self).root_child_counter,
            final(self).typed_view() == match last_index_of(old(self).items@, local_name@) {
                Some(i) => match old(self).typed_view() {
                    Some(m) => Some(popped_map(m, i as usize)),
                    None => None,
                },
                None => old(self).typed_view(),
            },
            final(self).active_hereditary_jumps@ == match last_index_of(old(self).items@, local_name@) {
                Some(i) => active_below(old(self).active_hereditary_jumps@, i),
                None => old(self).active_hereditary_jumps@,
            },
            match last_index_of(old(self).items@, local_name@) {
                Some(i) => final(self).items@ == old(self).items@.subrange(0, i)
                    && r@.len() == old(self).items@.len() - i
                    && forall|k: int| 0 <= k < r@.len() ==> #[trigger] r@[k] == old(self).items@[i + k].element_data,
                None => final(self).items@ == old(self).items@ && r@.len() == 0,
            },
    {
        let found = rposition(&self.items, local_name);
        proof {
            lemma_last_index_of(self.items@, local_name@);
        }
        match found {
            Some(index) => {
                match &mut self.typed_child_counters {
                    Some(counters) => counters.pop_to(index),
                    None => {},
                }
                let mut active: Vec<(AddressRange, usize)> = Vec::new();
                std::mem::swap(&mut active, &mut self.active_hereditary_jumps);
                let ghost a0 = active@;
                let ghost items0 = self.items;
                let ghost typed0 = self.typed_child_counters;
                let mut j: usize = 0;
                proof {
                    assert(a0.subrange(0, 0) =~= Seq::<(AddressRange, usize)>::empty());
                }
                while j < active.len()
                    invariant
                        active@ == a0,
                        j <= a0.len(),
                        self.items == items0,
                        self.typed_child_counters == typed0,
                        self.root_child_counter == old(self).root_child_counter,
                        self.active_hereditary_jumps@ == active_below(a0.subrange(0, j as int), index as int),
                    decreases a0.len() - j,
                {
                    proof {
                        assert(a0.subrange(0, j + 1).drop_last() =~= a0.subrange(0, j as int));
                        assert(a0.subrange(0, j + 1).last() == a0[j as int]);
                    }
                    if active[j].1 < index {
                        self.active_hereditary_jumps.push(active[j]);
                    }
                    j = j + 1;
                }
                proof {
                    assert(a0.subrange(0, j as int) =~= a0);
                    lemma_active_below(a0, index as int);
                    lemma_pop_keeps_active_wf(self.items@, a0, index as int);
                }
                let ghost before = self.items@;
                let tail = self.items.split_off(index);
                let mut popped: Vec<ElementDescriptor> = Vec::new();
                let mut tail = tail;
                let mut j: usize = 0;
                let n = tail.len();
                let mut rest: Vec<StackItem> = Vec::new();
                while tail.len() > 0
                    invariant
                        tail@.len() + j == n,
                        n == before.len() - index,
                        self.items@ == before.subrange(0, index as int),
                        popped@.len() == j,
                        forall|k: int| 0 <= k < j ==> #[trigger] popped@[k] == before[index + k].element_data,
                        forall|k: int| 0 <= k < tail@.len() ==> #[trigger] tail@[k] == before[index + j + k],
                    decreases tail@.len(),
                {
                    let item = tail.remove(0);
                    popped.push(item.element_data);
                    j = j + 1;
                }
                proof {
                    assert(popped@.len() == before.len() - index);
                    assert(self.items@ == old(self).items@.subrange(0, index as int));
                    assert(forall|k: int| 0 <= k < popped@.len() ==> #[trigger] popped@[k] == old(self).items@[index + k].element_data);
                }
                popped
            },
            None => Vec::new(),
        }
    }

    /// Pushes an item; it is marked as having an ancestor with hereditary jumps where
    /// the item below has hereditary jumps or has such an ancestor itself.
    pub fn push_item(&mut self, item: StackItem)
        ensures
            final(self).items@.len() == old(self).items@.len() + 1,
            final(self).items@.subrange(0, old(self).items@.len() as int) == old(self).items@,
            final(self).items@.last().local_name == item.local_name,
            final(self).items@.last().element_data == item.element_data,
            final(self).items@.last().jumps == item.jumps,
            final(self).items@.last().hereditary_jumps == item.hereditary_jumps,
            final(self).items@.last().child_counter == item.child_counter,
            final(self).root_child_counter == old(self).root_child_counter,
            final(self).typed_view() == old(self).typed_view(),
            old(self).wf() ==> final(self).wf(),
            final(self).active_hereditary_jumps@ == add_active_ranges(
                old(self).active_hereditary_jumps@,
                item.hereditary_jumps@,
                old(self).items@.len() as usize,
            ),
            final(self).items@.last().has_ancestor_with_hereditary_jumps == (item.has_ancestor_with_hereditary_jumps
                || (old(self).items@.len() > 0 && (old(self).items@.last().has_ancestor_with_hereditary_jumps
                || old(self).items@.last().hereditary_jumps@.len() > 0))),
    {
        let mut item = item;
        let n = self.items.len();
        let mut i: usize = 0;
        proof {
            assert(item.hereditary_jumps@.take(0) =~= Seq::<AddressRange>::empty());
        }
        while i < item.hereditary_jumps.len()
            invariant
                n == old(self).items@.len(),
                self.items == old(self).items,
                self.root_child_counter == old(self).root_child_counter,
                self.typed_child_counters == old(self).typed_child_counters,
                i <= item.hereditary_jumps@.len(),
                self.active_hereditary_jumps@ == add_active_ranges(
                    old(self).active_hereditary_jumps@,
                    item.hereditary_jumps@.take(i as int),
                    n,
                ),
            decreases item.hereditary_jumps@.len() - i,
        {
            let r = item.hereditary_jumps[i];
            proof {
                assert(item.hereditary_jumps@.take(i + 1).drop_last() =~= item.hereditary_jumps@.take(i as int));
                assert(item.hereditary_jumps@.take(i + 1).last() == r);
            }
            if !contains_range(&self.active_hereditary_jumps, r) {
                self.active_hereditary_jumps.push((r, n));
            }
            i = i + 1;
        }
        proof {
            assert(item.hereditary_jumps@.take(i as int) =~= item.hereditary_jumps@);
        }
        if n > 0 {
            let last = &self.items[n - 1];
            if last.has_ancestor_with_hereditary_jumps || last.hereditary_jumps.len() > 0 {
                item.has_ancestor_with_hereditary_jumps = true;
            }
        }
        self.items.push(item);
        let len_after = self.items.len();
        proof {
            assert(self.items@.subrange(0, old(self).items@.len() as int) =~= old(self).items@);
            if old(self).wf() {
                lemma_push_keeps_active_wf(
                    old(self).items@,
                    old(self).active_hereditary_jumps@,
                    self.items@,
                    self.items@.last().hereditary_jumps@,
                );
            }
        }
    }

    /// The open elements, the deepest last.
    pub fn items(&self) -> (r: &Vec<StackItem>)
        ensures
            r == &self.items,
    {
        &self.items
    }
}

} // verus!
