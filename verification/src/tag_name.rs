use vstd::prelude::*;
use vstd::string::StringSliceAdditionalSpecFns;

verus! {
/// A standard tag name whose hash (see [`TagName::get_hash`]) is known in advance.
///
/// Comparing hashes is cheaper than comparing strings, so names of the standard
/// tags are compared by their hashes.
#[derive(Debug, Copy, Clone, PartialEq, Eq, Structural)]
pub enum TagName {
    Svg,
    Math,
    Textarea,
    Title,
    Plaintext,
    Script,
    Style,
    Iframe,
    Xmp,
    Noembed,
    Noframes,
    Noscript,
    B,
    Big,
    Blockquote,
    Body,
    Br,
    Center,
    Code,
    Dd,
    Div,
    Dl,
    Dt,
    Em,
    Embed,
    H1,
    H2,
    H3,
    H4,
    H5,
    H6,
    Head,
    Hr,
    I,
    Img,
    Li,
    Listing,
    Menu,
    Meta,
    Nobr,
    Ol,
    P,
    Pre,
    Ruby,
    S,
    Small,
    Span,
    Strong,
    Strike,
    Sub,
    Sup,
    Table,
    Tt,
    U,
    Ul,
    Var,
    Mi,
    Mo,
    Mn,
    Ms,
    Mtext,
    Desc,
    ForeignObject,
    Font,
    A,
    Area,
    Base,
    Basefont,
    Bgsound,
    Col,
    Input,
    Keygen,
    Link,
    Param,
    Source,
    Track,
    Wbr,
}

impl TagName {
    /// The hash of the tag name, as computed by [`TagName::get_hash`].
    pub open spec fn spec_hash(self) -> u64 {
        match self {
            TagName::Svg => 25452u64,
            TagName::Math => 596781u64,
            TagName::Textarea => 870730390854u64,
            TagName::Title => 26699306u64,
            TagName::Plaintext => 23680792701881u64,
            TagName::Script => 814463673u64,
            TagName::Style => 26016298u64,
            TagName::Iframe => 482056778u64,
            TagName::Xmp => 30293u64,
            TagName::Noembed => 21083266377u64,
            TagName::Noframes => 674703296856u64,
            TagName::Noscript => 675124329145u64,
            TagName::B => 7u64,
            TagName::Big => 7628u64,
            TagName::Blockquote => 265678647808810u64,
            TagName::Body => 250174u64,
            TagName::Br => 247u64,
            TagName::Center => 279569751u64,
            TagName::Code => 282922u64,
            TagName::Dd => 297u64,
            TagName::Div => 9691u64,
            TagName::Dl => 305u64,
            TagName::Dt => 313u64,
            TagName::Em => 338u64,
            TagName::Embed => 11083081u64,
            TagName::H1 => 416u64,
            TagName::H2 => 417u64,
            TagName::H3 => 418u64,
            TagName::H4 => 419u64,
            TagName::H5 => 420u64,
            TagName::H6 => 421u64,
            TagName::Head => 436425u64,
            TagName::Hr => 439u64,
            TagName::I => 14u64,
            TagName::Img => 14924u64,
            TagName::Li => 558u64,
            TagName::Listing => 18749373036u64,
            TagName::Menu => 600698u64,
            TagName::Meta => 600870u64,
            TagName::Nobr => 643319u64,
            TagName::Ol => 657u64,
            TagName::P => 21u64,
            TagName::Pre => 22250u64,
            TagName::Ruby => 780542u64,
            TagName::S => 24u64,
            TagName::Small => 25762353u64,
            TagName::Span => 808147u64,
            TagName::Strong => 832295532u64,
            TagName::Strike => 832289290u64,
            TagName::Sub => 25415u64,
            TagName::Sup => 25429u64,
            TagName::Table => 26418730u64,
            TagName::Tt => 825u64,
            TagName::U => 26u64,
            TagName::Ul => 849u64,
            TagName::Var => 27863u64,
            TagName::Mi => 590u64,
            TagName::Mo => 596u64,
            TagName::Mn => 595u64,
            TagName::Ms => 600u64,
            TagName::Mtext => 19704761u64,
            TagName::Desc => 305928u64,
            TagName::ForeignObject => 13428975859192539417u64,
            TagName::Font => 381561u64,
            TagName::A => 6u64,
            TagName::Area => 220486u64,
            TagName::Base => 236298u64,
            TagName::Basefont => 247776793209u64,
            TagName::Bgsound => 7944694377u64,
            TagName::Col => 8849u64,
            TagName::Input => 15325017u64,
            TagName::Keygen => 548352339u64,
            TagName::Link => 572016u64,
            TagName::Param => 22240466u64,
            TagName::Source => 827153674u64,
            TagName::Track => 26974480u64,
            TagName::Wbr => 28919u64,
        }
    }

    /// The name of the tag, in lowercase ASCII.
    pub open spec fn spec_name(self) -> Seq<u8> {
        match self {
            TagName::Svg => seq![115, 118, 103],
            TagName::Math => seq![109, 97, 116, 104],
            TagName::Textarea => seq![116, 101, 120, 116, 97, 114, 101, 97],
            TagName::Title => seq![116, 105, 116, 108, 101],
            TagName::Plaintext => seq![112, 108, 97, 105, 110, 116, 101, 120, 116],
            TagName::Script => seq![115, 99, 114, 105, 112, 116],
            TagName::Style => seq![115, 116, 121, 108, 101],
            TagName::Iframe => seq![105, 102, 114, 97, 109, 101],
            TagName::Xmp => seq![120, 109, 112],
            TagName::Noembed => seq![110, 111, 101, 109, 98, 101, 100],
            TagName::Noframes => seq![110, 111, 102, 114, 97, 109, 101, 115],
            TagName::Noscript => seq![110, 111, 115, 99, 114, 105, 112, 116],
            TagName::B => seq![98],
            TagName::Big => seq![98, 105, 103],
            TagName::Blockquote => seq![98, 108, 111, 99, 107, 113, 117, 111, 116, 101],
            TagName::Body => seq![98, 111, 100, 121],
            TagName::Br => seq![98, 114],
            TagName::Center => seq![99, 101, 110, 116, 101, 114],
            TagName::Code => seq![99, 111, 100, 101],
            TagName::Dd => seq![100, 100],
            TagName::Div => seq![100, 105, 118],
            TagName::Dl => seq![100, 108],
            TagName::Dt => seq![100, 116],
            TagName::Em => seq![101, 109],
            TagName::Embed => seq![101, 109, 98, 101, 100],
            TagName::H1 => seq![104, 49],
            TagName::H2 => seq![104, 50],
            TagName::H3 => seq![104, 51],
            TagName::H4 => seq![104, 52],
            TagName::H5 => seq![104, 53],
            TagName::H6 => seq![104, 54],
            TagName::Head => seq![104, 101, 97, 100],
            TagName::Hr => seq![104, 114],
            TagName::I => seq![105],
            TagName::Img => seq![105, 109, 103],
            TagName::Li => seq![108, 105],
            TagName::Listing => seq![108, 105, 115, 116, 105, 110, 103],
            TagName::Menu => seq![109, 101, 110, 117],
            TagName::Meta => seq![109, 101, 116, 97],
            TagName::Nobr => seq![110, 111, 98, 114],
            TagName::Ol => seq![111, 108],
            TagName::P => seq![112],
            TagName::Pre => seq![112, 114, 101],
            TagName::Ruby => seq![114, 117, 98, 121],
            TagName::S => seq![115],
            TagName::Small => seq![115, 109, 97, 108, 108],
            TagName::Span => seq![115, 112, 97, 110],
            TagName::Strong => seq![115, 116, 114, 111, 110, 103],
            TagName::Strike => seq![115, 116, 114, 105, 107, 101],
            TagName::Sub => seq![115, 117, 98],
            TagName::Sup => seq![115, 117, 112],
            TagName::Table => seq![116, 97, 98, 108, 101],
            TagName::Tt => seq![116, 116],
            TagName::U => seq![117],
            TagName::Ul => seq![117, 108],
            TagName::Var => seq![118, 97, 114],
            TagName::Mi => seq![109, 105],
            TagName::Mo => seq![109, 111],
            TagName::Mn => seq![109, 110],
            TagName::Ms => seq![109, 115],
            TagName::Mtext => seq![109, 116, 101, 120, 116],
            TagName::Desc => seq![100, 101, 115, 99],
            TagName::ForeignObject => seq![102, 111, 114, 101, 105, 103, 110, 111, 98, 106, 101, 99, 116],
            TagName::Font => seq![102, 111, 110, 116],
            TagName::A => seq![97],
            TagName::Area => seq![97, 114, 101, 97],
            TagName::Base => seq![98, 97, 115, 101],
            TagName::Basefont => seq![98, 97, 115, 101, 102, 111, 110, 116],
            TagName::Bgsound => seq![98, 103, 115, 111, 117, 110, 100],
            TagName::Col => seq![99, 111, 108],
            TagName::Input => seq![105, 110, 112, 117, 116],
            TagName::Keygen => seq![107, 101, 121, 103, 101, 110],
            TagName::Link => seq![108, 105, 110, 107],
            TagName::Param => seq![112, 97, 114, 97, 109],
            TagName::Source => seq![115, 111, 117, 114, 99, 101],
            TagName::Track => seq![116, 114, 97, 99, 107],
            TagName::Wbr => seq![119, 98, 114],
        }
    }

    /// Returns the hash of the tag name.
    pub fn hash(self) -> (r: u64)
        ensures
            r == self.spec_hash(),
    {
        match self {
            TagName::Svg => 25452u64,
            TagName::Math => 596781u64,
            TagName::Textarea => 870730390854u64,
            TagName::Title => 26699306u64,
            TagName::Plaintext => 23680792701881u64,
            TagName::Script => 814463673u64,
            TagName::Style => 26016298u64,
            TagName::Iframe => 482056778u64,
            TagName::Xmp => 30293u64,
            TagName::Noembed => 21083266377u64,
            TagName::Noframes => 674703296856u64,
            TagName::Noscript => 675124329145u64,
            TagName::B => 7u64,
            TagName::Big => 7628u64,
            TagName::Blockquote => 265678647808810u64,
            TagName::Body => 250174u64,
            TagName::Br => 247u64,
            TagName::Center => 279569751u64,
            TagName::Code => 282922u64,
            TagName::Dd => 297u64,
            TagName::Div => 9691u64,
            TagName::Dl => 305u64,
            TagName::Dt => 313u64,
            TagName::Em => 338u64,
            TagName::Embed => 11083081u64,
            TagName::H1 => 416u64,
            TagName::H2 => 417u64,
            TagName::H3 => 418u64,
            TagName::H4 => 419u64,
            TagName::H5 => 420u64,
            TagName::H6 => 421u64,
            TagName::Head => 436425u64,
            TagName::Hr => 439u64,
            TagName::I => 14u64,
            TagName::Img => 14924u64,
            TagName::Li => 558u64,
            TagName::Listing => 18749373036u64,
            TagName::Menu => 600698u64,
            TagName::Meta => 600870u64,
            TagName::Nobr => 643319u64,
            TagName::Ol => 657u64,
            TagName::P => 21u64,
            TagName::Pre => 22250u64,
            TagName::Ruby => 780542u64,
            TagName::S => 24u64,
            TagName::Small => 25762353u64,
            TagName::Span => 808147u64,
            TagName::Strong => 832295532u64,
            TagName::Strike => 832289290u64,
            TagName::Sub => 25415u64,
            TagName::Sup => 25429u64,
            TagName::Table => 26418730u64,
            TagName::Tt => 825u64,
            TagName::U => 26u64,
            TagName::Ul => 849u64,
            TagName::Var => 27863u64,
            TagName::Mi => 590u64,
            TagName::Mo => 596u64,
            TagName::Mn => 595u64,
            TagName::Ms => 600u64,
            TagName::Mtext => 19704761u64,
            TagName::Desc => 305928u64,
            TagName::ForeignObject => 13428975859192539417u64,
            TagName::Font => 381561u64,
            TagName::A => 6u64,
            TagName::Area => 220486u64,
            TagName::Base => 236298u64,
            TagName::Basefont => 247776793209u64,
            TagName::Bgsound => 7944694377u64,
            TagName::Col => 8849u64,
            TagName::Input => 15325017u64,
            TagName::Keygen => 548352339u64,
            TagName::Link => 572016u64,
            TagName::Param => 22240466u64,
            TagName::Source => 827153674u64,
            TagName::Track => 26974480u64,
            TagName::Wbr => 28919u64,
        }
    }
}


/// The number that one byte of a tag name contributes to its hash: `1`..`6` map to
/// `0`..`5` and ASCII letters, case aside, map to `6`..`31`. Other bytes have no code.
pub open spec fn char_code(ch: u8) -> Option<u64> {
    if 97 <= ch <= 122 {
        Some((ch - 97 + 6) as u64)
    } else if 65 <= ch <= 90 {
        Some((ch - 65 + 6) as u64)
    } else if 49 <= ch <= 54 {
        Some((ch - 49) as u64)
    } else {
        None
    }
}

/// The hash after one more byte: the previous hash shifted by five bits, with the
/// code of the byte below; `None` once the bits run out or for a byte without a code.
pub open spec fn spec_update_hash(hash: Option<u64>, ch: u8) -> Option<u64> {
    match hash {
        None => None,
        Some(h) => if h < 0x0800_0000_0000_0000u64 {
            match char_code(ch) {
                Some(c) => Some((h * 32 + c) as u64),
                None => None,
            }
        } else {
            None
        },
    }
}

/// The hash of a whole name: the updates applied byte after byte, starting from `0`.
pub open spec fn spec_hash_of(name: Seq<u8>) -> Option<u64>
    decreases name.len(),
{
    if name.len() == 0 {
        Some(0)
    } else {
        spec_update_hash(spec_hash_of(name.drop_last()), name.last())
    }
}

impl TagName {
    /// Adds one byte of a tag name to the hash of the bytes before it.
    ///
    /// All standard tag names consist of ASCII letters and of the digits `1` to `6`,
    /// which gives 32 characters, five bits each, so up to twelve characters fit in a
    /// 64-bit integer. Digits take the codes `0` to `5`, letters the rest, so that a
    /// run of `a`s is never hashed to zero.
    pub fn update_hash(hash: Option<u64>, ch: u8) -> (r: Option<u64>)
        ensures
            r == spec_update_hash(hash, ch),
    {
        match hash {
            None => None,
            Some(h) => {
                if h >> 59u64 == 0 {
                    if (97 <= ch && ch <= 122) || (65 <= ch && ch <= 90) {
                        assert((97 <= ch && ch <= 122) ==> (ch as u64 & 0x1F) == ch - 96) by (bit_vector);
                        assert((65 <= ch && ch <= 90) ==> (ch as u64 & 0x1F) == ch - 64) by (bit_vector);
                        let c: u64 = (ch as u64 & 0x1F) + 5;
                        assert(h >> 59u64 == 0 && c < 32 ==> (h << 5u64) | c == h * 32 + c) by (bit_vector);
                        assert(h >> 59u64 == 0 <==> h < 0x0800_0000_0000_0000u64) by (bit_vector);
                        Some((h << 5u64) | c)
                    } else if 49 <= ch && ch <= 54 {
                        assert((49 <= ch && ch <= 54) ==> (ch as u64 & 0x0F) == ch - 48) by (bit_vector);
                        let c: u64 = (ch as u64 & 0x0F) - 1;
                        assert(h >> 59u64 == 0 && c < 32 ==> (h << 5u64) | c == h * 32 + c) by (bit_vector);
                        assert(h >> 59u64 == 0 <==> h < 0x0800_0000_0000_0000u64) by (bit_vector);
                        Some((h << 5u64) | c)
                    } else {
                        None
                    }
                } else {
                    assert(h >> 59u64 != 0 <==> h >= 0x0800_0000_0000_0000u64) by (bit_vector);
                    None
                }
            },
        }
    }

    /// Returns the hash of the name, or `None` where the name is not one that can be
    /// hashed (it holds other characters, or is too long).
    pub fn get_hash(name: &str) -> (r: Option<u64>)
        ensures
            r == spec_hash_of(name.spec_bytes()),
    {
        get_hash_of_bytes(name.as_bytes())
    }
}

/// Returns the hash of a name given as bytes.
pub fn get_hash_of_bytes(name: &[u8]) -> (r: Option<u64>)
    ensures
        r == spec_hash_of(name@),
{
    let mut hash: Option<u64> = Some(0);
    let mut i: usize = 0;
    while i < name.len()
        invariant
            i <= name@.len(),
            hash == spec_hash_of(name@.subrange(0, i as int)),
        decreases name@.len() - i,
    {
        proof {
            assert(name@.subrange(0, i + 1).drop_last() =~= name@.subrange(0, i as int));
        }
        hash = TagName::update_hash(hash, name[i]);
        i = i + 1;
    }
    proof {
        assert(name@.subrange(0, name@.len() as int) =~= name@);
    }
    hash
}

/// Hashing a name that ends with one more byte updates the hash of the rest.
pub proof fn lemma_hash_of_push(name: Seq<u8>, ch: u8)
    ensures
        spec_hash_of(name.push(ch)) == spec_update_hash(spec_hash_of(name), ch),
{
    assert(name.push(ch).drop_last() =~= name);
}

/// Every tag name's precomputed hash is the hash of its name.
pub proof fn lemma_tag_name_hash_matches_name(t: TagName)
    ensures
        spec_hash_of(t.spec_name()) == Some(t.spec_hash()),
{
    if t == TagName::Svg || t == TagName::Math || t == TagName::Textarea || t == TagName::Title {
        lemma_hash_matches_name_0(t);
    }
    if t == TagName::Plaintext || t == TagName::Script || t == TagName::Style || t == TagName::Iframe {
        lemma_hash_matches_name_1(t);
    }
    if t == TagName::Xmp || t == TagName::Noembed || t == TagName::Noframes || t == TagName::Noscript {
        lemma_hash_matches_name_2(t);
    }
    if t == TagName::B || t == TagName::Big || t == TagName::Blockquote || t == TagName::Body {
        lemma_hash_matches_name_3(t);
    }
    if t == TagName::Br || t == TagName::Center || t == TagName::Code || t == TagName::Dd {
        lemma_hash_matches_name_4(t);
    }
    if t == TagName::Div || t == TagName::Dl || t == TagName::Dt || t == TagName::Em {
        lemma_hash_matches_name_5(t);
    }
    if t == TagName::Embed || t == TagName::H1 || t == TagName::H2 || t == TagName::H3 {
        lemma_hash_matches_name_6(t);
    }
    if t == TagName::H4 || t == TagName::H5 || t == TagName::H6 || t == TagName::Head {
        lemma_hash_matches_name_7(t);
    }
    if t == TagName::Hr || t == TagName::I || t == TagName::Img || t == TagName::Li {
        lemma_hash_matches_name_8(t);
    }
    if t == TagName::Listing || t == TagName::Menu || t == TagName::Meta || t == TagName::Nobr {
        lemma_hash_matches_name_9(t);
    }
    if t == TagName::Ol || t == TagName::P || t == TagName::Pre || t == TagName::Ruby {
        lemma_hash_matches_name_10(t);
    }
    if t == TagName::S || t == TagName::Small || t == TagName::Span || t == TagName::Strong {
        lemma_hash_matches_name_11(t);
    }
    if t == TagName::Strike || t == TagName::Sub || t == TagName::Sup || t == TagName::Table {
        lemma_hash_matches_name_12(t);
    }
    if t == TagName::Tt || t == TagName::U || t == TagName::Ul || t == TagName::Var {
        lemma_hash_matches_name_13(t);
    }
    if t == TagName::Mi || t == TagName::Mo || t == TagName::Mn || t == TagName::Ms {
        lemma_hash_matches_name_14(t);
    }
    if t == TagName::Mtext || t == TagName::Desc || t == TagName::ForeignObject || t == TagName::Font {
        lemma_hash_matches_name_15(t);
    }
    if t == TagName::A || t == TagName::Area || t == TagName::Base || t == TagName::Basefont {
        lemma_hash_matches_name_16(t);
    }
    if t == TagName::Bgsound || t == TagName::Col || t == TagName::Input || t == TagName::Keygen {
        lemma_hash_matches_name_17(t);
    }
    if t == TagName::Link || t == TagName::Param || t == TagName::Source || t == TagName::Track {
        lemma_hash_matches_name_18(t);
    }
    if t == TagName::Wbr {
        lemma_hash_matches_name_19(t);
    }
}

#[verifier::rlimit(40)]
proof fn lemma_hash_matches_name_0(t: TagName)
    requires
        t == TagName::Svg || t == TagName::Math || t == TagName::Textarea || t == TagName::Title,
    ensures
        spec_hash_of(t.spec_name()) == Some(t.spec_hash()),
{
    assert(spec_hash_of(Seq::<u8>::empty()) == Some(0u64));
    if t == TagName::Svg {
        let s = Seq::<u8>::empty();
        lemma_hash_of_push(s, 115);
        let s = s.push(115);
        lemma_hash_of_push(s, 118);
        let s = s.push(118);
        lemma_hash_of_push(s, 103);
        let s = s.push(103);
        assert(s =~= t.spec_name());
    }
    if t == TagName::Math {
        let s = Seq::<u8>::empty();
        lemma_hash_of_push(s, 109);
        let s = s.push(109);
        lemma_hash_of_push(s, 97);
        let s = s.push(97);
        lemma_hash_of_push(s, 116);
        let s = s.push(116);
        lemma_hash_of_push(s, 104);
        let s = s.push(104);
        assert(s =~= t.spec_name());
    }
    if t == TagName::Textarea {
        let s = Seq::<u8>::empty();
        lemma_hash_of_push(s, 116);
        let s = s.push(116);
        lemma_hash_of_push(s, 101);
        let s = s.push(101);
        lemma_hash_of_push(s, 120);
        let s = s.push(120);
        lemma_hash_of_push(s, 116);
        let s = s.push(116);
        lemma_hash_of_push(s, 97);
        let s = s.push(97);
        lemma_hash_of_push(s, 114);
        let s = s.push(114);
        lemma_hash_of_push(s, 101);
        let s = s.push(101);
        lemma_hash_of_push(s, 97);
        let s = s.push(97);
        assert(s =~= t.spec_name());
    }
    if t == TagName::Title {
        let s = Seq::<u8>::empty();
        lemma_hash_of_push(s, 116);
        let s = s.push(116);
        lemma_hash_of_push(s, 105);
        let s = s.push(105);
        lemma_hash_of_push(s, 116);
        let s = s.push(116);
        lemma_hash_of_push(s, 108);
        let s = s.push(108);
        lemma_hash_of_push(s, 101);
        let s = s.push(101);
        assert(s =~= t.spec_name());
    }
}

#[verifier::rlimit(40)]
proof fn lemma_hash_matches_name_1(t: TagName)
    requires
        t == TagName::Plaintext || t == TagName::Script || t == TagName::Style || t == TagName::Iframe,
    ensures
        spec_hash_of(t.spec_name()) == Some(t.spec_hash()),
{
    assert(spec_hash_of(Seq::<u8>::empty()) == Some(0u64));
    if t == TagName::Plaintext {
        let s = Seq::<u8>::empty();
        lemma_hash_of_push(s, 112);
        let s = s.push(112);
        lemma_hash_of_push(s, 108);
        let s = s.push(108);
        lemma_hash_of_push(s, 97);
        let s = s.push(97);
        lemma_hash_of_push(s, 105);
        let s = s.push(105);
        lemma_hash_of_push(s, 110);
        let s = s.push(110);
        lemma_hash_of_push(s, 116);
        let s = s.push(116);
        lemma_hash_of_push(s, 101);
        let s = s.push(101);
        lemma_hash_of_push(s, 120);
        let s = s.push(120);
        lemma_hash_of_push(s, 116);
        let s = s.push(116);
        assert(s =~= t.spec_name());
    }
    if t == TagName::Script {
        let s = Seq::<u8>::empty();
        lemma_hash_of_push(s, 115);
        let s = s.push(115);
        lemma_hash_of_push(s, 99);
        let s = s.push(99);
        lemma_hash_of_push(s, 114);
        let s = s.push(114);
        lemma_hash_of_push(s, 105);
        let s = s.push(105);
        lemma_hash_of_push(s, 112);
        let s = s.push(112);
        lemma_hash_of_push(s, 116);
        let s = s.push(116);
        assert(s =~= t.spec_name());
    }
    if t == TagName::Style {
        let s = Seq::<u8>::empty();
        lemma_hash_of_push(s, 115);
        let s = s.push(115);
        lemma_hash_of_push(s, 116);
        let s = s.push(116);
        lemma_hash_of_push(s, 121);
        let s = s.push(121);
        lemma_hash_of_push(s, 108);
        let s = s.push(108);
        lemma_hash_of_push(s, 101);
        let s = s.push(101);
        assert(s =~= t.spec_name());
    }
    if t == TagName::Iframe {
        let s = Seq::<u8>::empty();
        lemma_hash_of_push(s, 105);
        let s = s.push(105);
        lemma_hash_of_push(s, 102);
        let s = s.push(102);
        lemma_hash_of_push(s, 114);
        let s = s.push(114);
        lemma_hash_of_push(s, 97);
        let s = s.push(97);
        lemma_hash_of_push(s, 109);
        let s = s.push(109);
        lemma_hash_of_push(s, 101);
        let s = s.push(101);
        assert(s =~= t.spec_name());
    }
}

#[verifier::rlimit(40)]
proof fn lemma_hash_matches_name_2(t: TagName)
    requires
        t == TagName::Xmp || t == TagName::Noembed || t == TagName::Noframes || t == TagName::Noscript,
    ensures
        spec_hash_of(t.spec_name()) == Some(t.spec_hash()),
{
    assert(spec_hash_of(Seq::<u8>::empty()) == Some(0u64));
    if t == TagName::Xmp {
        let s = Seq::<u8>::empty();
        lemma_hash_of_push(s, 120);
        let s = s.push(120);
        lemma_hash_of_push(s, 109);
        let s = s.push(109);
        lemma_hash_of_push(s, 112);
        let s = s.push(112);
        assert(s =~= t.spec_name());
    }
    if t == TagName::Noembed {
        let s = Seq::<u8>::empty();
        lemma_hash_of_push(s, 110);
        let s = s.push(110);
        lemma_hash_of_push(s, 111);
        let s = s.push(111);
        lemma_hash_of_push(s, 101);
        let s = s.push(101);
        lemma_hash_of_push(s, 109);
        let s = s.push(109);
        lemma_hash_of_push(s, 98);
        let s = s.push(98);
        lemma_hash_of_push(s, 101);
        let s = s.push(101);
        lemma_hash_of_push(s, 100);
        let s = s.push(100);
        assert(s =~= t.spec_name());
    }
    if t == TagName::Noframes {
        let s = Seq::<u8>::empty();
        lemma_hash_of_push(s, 110);
        let s = s.push(110);
        lemma_hash_of_push(s, 111);
        let s = s.push(111);
        lemma_hash_of_push(s, 102);
        let s = s.push(102);
        lemma_hash_of_push(s, 114);
        let s = s.push(114);
        lemma_hash_of_push(s, 97);
        let s = s.push(97);
        lemma_hash_of_push(s, 109);
        let s = s.push(109);
        lemma_hash_of_push(s, 101);
        let s = s.push(101);
        lemma_hash_of_push(s, 115);
        let s = s.push(115);
        assert(s =~= t.spec_name());
    }
    if t == TagName::Noscript {
        let s = Seq::<u8>::empty();
        lemma_hash_of_push(s, 110);
        let s = s.push(110);
        lemma_hash_of_push(s, 111);
        let s = s.push(111);
        lemma_hash_of_push(s, 115);
        let s = s.push(115);
        lemma_hash_of_push(s, 99);
        let s = s.push(99);
        lemma_hash_of_push(s, 114);
        let s = s.push(114);
        lemma_hash_of_push(s, 105);
        let s = s.push(105);
        lemma_hash_of_push(s, 112);
        let s = s.push(112);
        lemma_hash_of_push(s, 116);
        let s = s.push(116);
        assert(s =~= t.spec_name());
    }
}

#[verifier::rlimit(40)]
proof fn lemma_hash_matches_name_3(t: TagName)
    requires
        t == TagName::B || t == TagName::Big || t == TagName::Blockquote || t == TagName::Body,
    ensures
        spec_hash_of(t.spec_name()) == Some(t.spec_hash()),
{
    assert(spec_hash_of(Seq::<u8>::empty()) == Some(0u64));
    if t == TagName::B {
        let s = Seq::<u8>::empty();
        lemma_hash_of_push(s, 98);
        let s = s.push(98);
        assert(s =~= t.spec_name());
    }
    if t == TagName::Big {
        let s = Seq::<u8>::empty();
        lemma_hash_of_push(s, 98);
        let s = s.push(98);
        lemma_hash_of_push(s, 105);
        let s = s.push(105);
        lemma_hash_of_push(s, 103);
        let s = s.push(103);
        assert(s =~= t.spec_name());
    }
    if t == TagName::Blockquote {
        let s = Seq::<u8>::empty();
        lemma_hash_of_push(s, 98);
        let s = s.push(98);
        lemma_hash_of_push(s, 108);
        let s = s.push(108);
        lemma_hash_of_push(s, 111);
        let s = s.push(111);
        lemma_hash_of_push(s, 99);
        let s = s.push(99);
        lemma_hash_of_push(s, 107);
        let s = s.push(107);
        lemma_hash_of_push(s, 113);
        let s = s.push(113);
        lemma_hash_of_push(s, 117);
        let s = s.push(117);
        lemma_hash_of_push(s, 111);
        let s = s.push(111);
        lemma_hash_of_push(s, 116);
        let s = s.push(116);
        lemma_hash_of_push(s, 101);
        let s = s.push(101);
        assert(s =~= t.spec_name());
    }
    if t == TagName::Body {
        let s = Seq::<u8>::empty();
        lemma_hash_of_push(s, 98);
        let s = s.push(98);
        lemma_hash_of_push(s, 111);
        let s = s.push(111);
        lemma_hash_of_push(s, 100);
        let s = s.push(100);
        lemma_hash_of_push(s, 121);
        let s = s.push(121);
        assert(s =~= t.spec_name());
    }
}

#[verifier::rlimit(40)]
proof fn lemma_hash_matches_name_4(t: TagName)
    requires
        t == TagName::Br || t == TagName::Center || t == TagName::Code || t == TagName::Dd,
    ensures
        spec_hash_of(t.spec_name()) == Some(t.spec_hash()),
{
    assert(spec_hash_of(Seq::<u8>::empty()) == Some(0u64));
    if t == TagName::Br {
        let s = Seq::<u8>::empty();
        lemma_hash_of_push(s, 98);
        let s = s.push(98);
        lemma_hash_of_push(s, 114);
        let s = s.push(114);
        assert(s =~= t.spec_name());
    }
    if t == TagName::Center {
        let s = Seq::<u8>::empty();
        lemma_hash_of_push(s, 99);
        let s = s.push(99);
        lemma_hash_of_push(s, 101);
        let s = s.push(101);
        lemma_hash_of_push(s, 110);
        let s = s.push(110);
        lemma_hash_of_push(s, 116);
        let s = s.push(116);
        lemma_hash_of_push(s, 101);
        let s = s.push(101);
        lemma_hash_of_push(s, 114);
        let s = s.push(114);
        assert(s =~= t.spec_name());
    }
    if t == TagName::Code {
        let s = Seq::<u8>::empty();
        lemma_hash_of_push(s, 99);
        let s = s.push(99);
        lemma_hash_of_push(s, 111);
        let s = s.push(111);
        lemma_hash_of_push(s, 100);
        let s = s.push(100);
        lemma_hash_of_push(s, 101);
        let s = s.push(101);
        assert(s =~= t.spec_name());
    }
    if t == TagName::Dd {
        let s = Seq::<u8>::empty();
        lemma_hash_of_push(s, 100);
        let s = s.push(100);
        lemma_hash_of_push(s, 100);
        let s = s.push(100);
        assert(s =~= t.spec_name());
    }
}

#[verifier::rlimit(40)]
proof fn lemma_hash_matches_name_5(t: TagName)
    requires
        t == TagName::Div || t == TagName::Dl || t == TagName::Dt || t == TagName::Em,
    ensures
        spec_hash_of(t.spec_name()) == Some(t.spec_hash()),
{
    assert(spec_hash_of(Seq::<u8>::empty()) == Some(0u64));
    if t == TagName::Div {
        let s = Seq::<u8>::empty();
        lemma_hash_of_push(s, 100);
        let s = s.push(100);
        lemma_hash_of_push(s, 105);
        let s = s.push(105);
        lemma_hash_of_push(s, 118);
        let s = s.push(118);
        assert(s =~= t.spec_name());
    }
    if t == TagName::Dl {
        let s = Seq::<u8>::empty();
        lemma_hash_of_push(s, 100);
        let s = s.push(100);
        lemma_hash_of_push(s, 108);
        let s = s.push(108);
        assert(s =~= t.spec_name());
    }
    if t == TagName::Dt {
        let s = Seq::<u8>::empty();
        lemma_hash_of_push(s, 100);
        let s = s.push(100);
        lemma_hash_of_push(s, 116);
        let s = s.push(116);
        assert(s =~= t.spec_name());
    }
    if t == TagName::Em {
        let s = Seq::<u8>::empty();
        lemma_hash_of_push(s, 101);
        let s = s.push(101);
        lemma_hash_of_push(s, 109);
        let s = s.push(109);
        assert(s =~= t.spec_name());
    }
}

#[verifier::rlimit(40)]
proof fn lemma_hash_matches_name_6(t: TagName)
    requires
        t == TagName::Embed || t == TagName::H1 || t == TagName::H2 || t == TagName::H3,
    ensures
        spec_hash_of(t.spec_name()) == Some(t.spec_hash()),
{
    assert(spec_hash_of(Seq::<u8>::empty()) == Some(0u64));
    if t == TagName::Embed {
        let s = Seq::<u8>::empty();
        lemma_hash_of_push(s, 101);
        let s = s.push(101);
        lemma_hash_of_push(s, 109);
        let s = s.push(109);
        lemma_hash_of_push(s, 98);
        let s = s.push(98);
        lemma_hash_of_push(s, 101);
        let s = s.push(101);
        lemma_hash_of_push(s, 100);
        let s = s.push(100);
        assert(s =~= t.spec_name());
    }
    if t == TagName::H1 {
        let s = Seq::<u8>::empty();
        lemma_hash_of_push(s, 104);
        let s = s.push(104);
        lemma_hash_of_push(s, 49);
        let s = s.push(49);
        assert(s =~= t.spec_name());
    }
    if t == TagName::H2 {
        let s = Seq::<u8>::empty();
        lemma_hash_of_push(s, 104);
        let s = s.push(104);
        lemma_hash_of_push(s, 50);
        let s = s.push(50);
        assert(s =~= t.spec_name());
    }
    if t == TagName::H3 {
        let s = Seq::<u8>::empty();
        lemma_hash_of_push(s, 104);
        let s = s.push(104);
        lemma_hash_of_push(s, 51);
        let s = s.push(51);
        assert(s =~= t.spec_name());
    }
}

#[verifier::rlimit(40)]
proof fn lemma_hash_matches_name_7(t: TagName)
    requires
        t == TagName::H4 || t == TagName::H5 || t == TagName::H6 || t == TagName::Head,
    ensures
        spec_hash_of(t.spec_name()) == Some(t.spec_hash()),
{
    assert(spec_hash_of(Seq::<u8>::empty()) == Some(0u64));
    if t == TagName::H4 {
        let s = Seq::<u8>::empty();
        lemma_hash_of_push(s, 104);
        let s = s.push(104);
        lemma_hash_of_push(s, 52);
        let s = s.push(52);
        assert(s =~= t.spec_name());
    }
    if t == TagName::H5 {
        let s = Seq::<u8>::empty();
        lemma_hash_of_push(s, 104);
        let s = s.push(104);
        lemma_hash_of_push(s, 53);
        let s = s.push(53);
        assert(s =~= t.spec_name());
    }
    if t == TagName::H6 {
        let s = Seq::<u8>::empty();
        lemma_hash_of_push(s, 104);
        let s = s.push(104);
        lemma_hash_of_push(s, 54);
        let s = s.push(54);
        assert(s =~= t.spec_name());
    }
    if t == TagName::Head {
        let s = Seq::<u8>::empty();
        lemma_hash_of_push(s, 104);
        let s = s.push(104);
        lemma_hash_of_push(s, 101);
        let s = s.push(101);
        lemma_hash_of_push(s, 97);
        let s = s.push(97);
        lemma_hash_of_push(s, 100);
        let s = s.push(100);
        assert(s =~= t.spec_name());
    }
}

#[verifier::rlimit(40)]
proof fn lemma_hash_matches_name_8(t: TagName)
    requires
        t == TagName::Hr || t == TagName::I || t == TagName::Img || t == TagName::Li,
    ensures
        spec_hash_of(t.spec_name()) == Some(t.spec_hash()),
{
    assert(spec_hash_of(Seq::<u8>::empty()) == Some(0u64));
    if t == TagName::Hr {
        let s = Seq::<u8>::empty();
        lemma_hash_of_push(s, 104);
        let s = s.push(104);
        lemma_hash_of_push(s, 114);
        let s = s.push(114);
        assert(s =~= t.spec_name());
    }
    if t == TagName::I {
        let s = Seq::<u8>::empty();
        lemma_hash_of_push(s, 105);
        let s = s.push(105);
        assert(s =~= t.spec_name());
    }
    if t == TagName::Img {
        let s = Seq::<u8>::empty();
        lemma_hash_of_push(s, 105);
        let s = s.push(105);
        lemma_hash_of_push(s, 109);
        let s = s.push(109);
        lemma_hash_of_push(s, 103);
        let s = s.push(103);
        assert(s =~= t.spec_name());
    }
    if t == TagName::Li {
        let s = Seq::<u8>::empty();
        lemma_hash_of_push(s, 108);
        let s = s.push(108);
        lemma_hash_of_push(s, 105);
        let s = s.push(105);
        assert(s =~= t.spec_name());
    }
}

#[verifier::rlimit(40)]
proof fn lemma_hash_matches_name_9(t: TagName)
    requires
        t == TagName::Listing || t == TagName::Menu || t == TagName::Meta || t == TagName::Nobr,
    ensures
        spec_hash_of(t.spec_name()) == Some(t.spec_hash()),
{
    assert(spec_hash_of(Seq::<u8>::empty()) == Some(0u64));
    if t == TagName::Listing {
        let s = Seq::<u8>::empty();
        lemma_hash_of_push(s, 108);
        let s = s.push(108);
        lemma_hash_of_push(s, 105);
        let s = s.push(105);
        lemma_hash_of_push(s, 115);
        let s = s.push(115);
        lemma_hash_of_push(s, 116);
        let s = s.push(116);
        lemma_hash_of_push(s, 105);
        let s = s.push(105);
        lemma_hash_of_push(s, 110);
        let s = s.push(110);
        lemma_hash_of_push(s, 103);
        let s = s.push(103);
        assert(s =~= t.spec_name());
    }
    if t == TagName::Menu {
        let s = Seq::<u8>::empty();
        lemma_hash_of_push(s, 109);
        let s = s.push(109);
        lemma_hash_of_push(s, 101);
        let s = s.push(101);
        lemma_hash_of_push(s, 110);
        let s = s.push(110);
        lemma_hash_of_push(s, 117);
        let s = s.push(117);
        assert(s =~= t.spec_name());
    }
    if t == TagName::Meta {
        let s = Seq::<u8>::empty();
        lemma_hash_of_push(s, 109);
        let s = s.push(109);
        lemma_hash_of_push(s, 101);
        let s = s.push(101);
        lemma_hash_of_push(s, 116);
        let s = s.push(116);
        lemma_hash_of_push(s, 97);
        let s = s.push(97);
        assert(s =~= t.spec_name());
    }
    if t == TagName::Nobr {
        let s = Seq::<u8>::empty();
        lemma_hash_of_push(s, 110);
        let s = s.push(110);
        lemma_hash_of_push(s, 111);
        let s = s.push(111);
        lemma_hash_of_push(s, 98);
        let s = s.push(98);
        lemma_hash_of_push(s, 114);
        let s = s.push(114);
        assert(s =~= t.spec_name());
    }
}

#[verifier::rlimit(40)]
proof fn lemma_hash_matches_name_10(t: TagName)
    requires
        t == TagName::Ol || t == TagName::P || t == TagName::Pre || t == TagName::Ruby,
    ensures
        spec_hash_of(t.spec_name()) == Some(t.spec_hash()),
{
    assert(spec_hash_of(Seq::<u8>::empty()) == Some(0u64));
    if t == TagName::Ol {
        let s = Seq::<u8>::empty();
        lemma_hash_of_push(s, 111);
        let s = s.push(111);
        lemma_hash_of_push(s, 108);
        let s = s.push(108);
        assert(s =~= t.spec_name());
    }
    if t == TagName::P {
        let s = Seq::<u8>::empty();
        lemma_hash_of_push(s, 112);
        let s = s.push(112);
        assert(s =~= t.spec_name());
    }
    if t == TagName::Pre {
        let s = Seq::<u8>::empty();
        lemma_hash_of_push(s, 112);
        let s = s.push(112);
        lemma_hash_of_push(s, 114);
        let s = s.push(114);
        lemma_hash_of_push(s, 101);
        let s = s.push(101);
        assert(s =~= t.spec_name());
    }
    if t == TagName::Ruby {
        let s = Seq::<u8>::empty();
        lemma_hash_of_push(s, 114);
        let s = s.push(114);
        lemma_hash_of_push(s, 117);
        let s = s.push(117);
        lemma_hash_of_push(s, 98);
        let s = s.push(98);
        lemma_hash_of_push(s, 121);
        let s = s.push(121);
        assert(s =~= t.spec_name());
    }
}

#[verifier::rlimit(40)]
proof fn lemma_hash_matches_name_11(t: TagName)
    requires
        t == TagName::S || t == TagName::Small || t == TagName::Span || t == TagName::Strong,
    ensures
        spec_hash_of(t.spec_name()) == Some(t.spec_hash()),
{
    assert(spec_hash_of(Seq::<u8>::empty()) == Some(0u64));
    if t == TagName::S {
        let s = Seq::<u8>::empty();
        lemma_hash_of_push(s, 115);
        let s = s.push(115);
        assert(s =~= t.spec_name());
    }
    if t == TagName::Small {
        let s = Seq::<u8>::empty();
        lemma_hash_of_push(s, 115);
        let s = s.push(115);
        lemma_hash_of_push(s, 109);
        let s = s.push(109);
        lemma_hash_of_push(s, 97);
        let s = s.push(97);
        lemma_hash_of_push(s, 108);
        let s = s.push(108);
        lemma_hash_of_push(s, 108);
        let s = s.push(108);
        assert(s =~= t.spec_name());
    }
    if t == TagName::Span {
        let s = Seq::<u8>::empty();
        lemma_hash_of_push(s, 115);
        let s = s.push(115);
        lemma_hash_of_push(s, 112);
        let s = s.push(112);
        lemma_hash_of_push(s, 97);
        let s = s.push(97);
        lemma_hash_of_push(s, 110);
        let s = s.push(110);
        assert(s =~= t.spec_name());
    }
    if t == TagName::Strong {
        let s = Seq::<u8>::empty();
        lemma_hash_of_push(s, 115);
        let s = s.push(115);
        lemma_hash_of_push(s, 116);
        let s = s.push(116);
        lemma_hash_of_push(s, 114);
        let s = s.push(114);
        lemma_hash_of_push(s, 111);
        let s = s.push(111);
        lemma_hash_of_push(s, 110);
        let s = s.push(110);
        lemma_hash_of_push(s, 103);
        let s = s.push(103);
        assert(s =~= t.spec_name());
    }
}

#[verifier::rlimit(40)]
proof fn lemma_hash_matches_name_12(t: TagName)
    requires
        t == TagName::Strike || t == TagName::Sub || t == TagName::Sup || t == TagName::Table,
    ensures
        spec_hash_of(t.spec_name()) == Some(t.spec_hash()),
{
    assert(spec_hash_of(Seq::<u8>::empty()) == Some(0u64));
    if t == TagName::Strike {
        let s = Seq::<u8>::empty();
        lemma_hash_of_push(s, 115);
        let s = s.push(115);
        lemma_hash_of_push(s, 116);
        let s = s.push(116);
        lemma_hash_of_push(s, 114);
        let s = s.push(114);
        lemma_hash_of_push(s, 105);
        let s = s.push(105);
        lemma_hash_of_push(s, 107);
        let s = s.push(107);
        lemma_hash_of_push(s, 101);
        let s = s.push(101);
        assert(s =~= t.spec_name());
    }
    if t == TagName::Sub {
        let s = Seq::<u8>::empty();
        lemma_hash_of_push(s, 115);
        let s = s.push(115);
        lemma_hash_of_push(s, 117);
        let s = s.push(117);
        lemma_hash_of_push(s, 98);
        let s = s.push(98);
        assert(s =~= t.spec_name());
    }
    if t == TagName::Sup {
        let s = Seq::<u8>::empty();
        lemma_hash_of_push(s, 115);
        let s = s.push(115);
        lemma_hash_of_push(s, 117);
        let s = s.push(117);
        lemma_hash_of_push(s, 112);
        let s = s.push(112);
        assert(s =~= t.spec_name());
    }
    if t == TagName::Table {
        let s = Seq::<u8>::empty();
        lemma_hash_of_push(s, 116);
        let s = s.push(116);
        lemma_hash_of_push(s, 97);
        let s = s.push(97);
        lemma_hash_of_push(s, 98);
        let s = s.push(98);
        lemma_hash_of_push(s, 108);
        let s = s.push(108);
        lemma_hash_of_push(s, 101);
        let s = s.push(101);
        assert(s =~= t.spec_name());
    }
}

#[verifier::rlimit(40)]
proof fn lemma_hash_matches_name_13(t: TagName)
    requires
        t == TagName::Tt || t == TagName::U || t == TagName::Ul || t == TagName::Var,
    ensures
        spec_hash_of(t.spec_name()) == Some(t.spec_hash()),
{
    assert(spec_hash_of(Seq::<u8>::empty()) == Some(0u64));
    if t == TagName::Tt {
        let s = Seq::<u8>::empty();
        lemma_hash_of_push(s, 116);
        let s = s.push(116);
        lemma_hash_of_push(s, 116);
        let s = s.push(116);
        assert(s =~= t.spec_name());
    }
    if t == TagName::U {
        let s = Seq::<u8>::empty();
        lemma_hash_of_push(s, 117);
        let s = s.push(117);
        assert(s =~= t.spec_name());
    }
    if t == TagName::Ul {
        let s = Seq::<u8>::empty();
        lemma_hash_of_push(s, 117);
        let s = s.push(117);
        lemma_hash_of_push(s, 108);
        let s = s.push(108);
        assert(s =~= t.spec_name());
    }
    if t == TagName::Var {
        let s = Seq::<u8>::empty();
        lemma_hash_of_push(s, 118);
        let s = s.push(118);
        lemma_hash_of_push(s, 97);
        let s = s.push(97);
        lemma_hash_of_push(s, 114);
        let s = s.push(114);
        assert(s =~= t.spec_name());
    }
}

#[verifier::rlimit(40)]
proof fn lemma_hash_matches_name_14(t: TagName)
    requires
        t == TagName::Mi || t == TagName::Mo || t == TagName::Mn || t == TagName::Ms,
    ensures
        spec_hash_of(t.spec_name()) == Some(t.spec_hash()),
{
    assert(spec_hash_of(Seq::<u8>::empty()) == Some(0u64));
    if t == TagName::Mi {
        let s = Seq::<u8>::empty();
        lemma_hash_of_push(s, 109);
        let s = s.push(109);
        lemma_hash_of_push(s, 105);
        let s = s.push(105);
        assert(s =~= t.spec_name());
    }
    if t == TagName::Mo {
        let s = Seq::<u8>::empty();
        lemma_hash_of_push(s, 109);
        let s = s.push(109);
        lemma_hash_of_push(s, 111);
        let s = s.push(111);
        assert(s =~= t.spec_name());
    }
    if t == TagName::Mn {
        let s = Seq::<u8>::empty();
        lemma_hash_of_push(s, 109);
        let s = s.push(109);
        lemma_hash_of_push(s, 110);
        let s = s.push(110);
        assert(s =~= t.spec_name());
    }
    if t == TagName::Ms {
        let s = Seq::<u8>::empty();
        lemma_hash_of_push(s, 109);
        let s = s.push(109);
        lemma_hash_of_push(s, 115);
        let s = s.push(115);
        assert(s =~= t.spec_name());
    }
}

#[verifier::rlimit(40)]
proof fn lemma_hash_matches_name_15(t: TagName)
    requires
        t == TagName::Mtext || t == TagName::Desc || t == TagName::ForeignObject || t == TagName::Font,
    ensures
        spec_hash_of(t.spec_name()) == Some(t.spec_hash()),
{
    assert(spec_hash_of(Seq::<u8>::empty()) == Some(0u64));
    if t == TagName::Mtext {
        let s = Seq::<u8>::empty();
        lemma_hash_of_push(s, 109);
        let s = s.push(109);
        lemma_hash_of_push(s, 116);
        let s = s.push(116);
        lemma_hash_of_push(s, 101);
        let s = s.push(101);
        lemma_hash_of_push(s, 120);
        let s = s.push(120);
        lemma_hash_of_push(s, 116);
        let s = s.push(116);
        assert(s =~= t.spec_name());
    }
    if t == TagName::Desc {
        let s = Seq::<u8>::empty();
        lemma_hash_of_push(s, 100);
        let s = s.push(100);
        lemma_hash_of_push(s, 101);
        let s = s.push(101);
        lemma_hash_of_push(s, 115);
        let s = s.push(115);
        lemma_hash_of_push(s, 99);
        let s = s.push(99);
        assert(s =~= t.spec_name());
    }
    if t == TagName::ForeignObject {
        let s = Seq::<u8>::empty();
        lemma_hash_of_push(s, 102);
        let s = s.push(102);
        lemma_hash_of_push(s, 111);
        let s = s.push(111);
        lemma_hash_of_push(s, 114);
        let s = s.push(114);
        lemma_hash_of_push(s, 101);
        let s = s.push(101);
        lemma_hash_of_push(s, 105);
        let s = s.push(105);
        lemma_hash_of_push(s, 103);
        let s = s.push(103);
        lemma_hash_of_push(s, 110);
        let s = s.push(110);
        lemma_hash_of_push(s, 111);
        let s = s.push(111);
        lemma_hash_of_push(s, 98);
        let s = s.push(98);
        lemma_hash_of_push(s, 106);
        let s = s.push(106);
        lemma_hash_of_push(s, 101);
        let s = s.push(101);
        lemma_hash_of_push(s, 99);
        let s = s.push(99);
        lemma_hash_of_push(s, 116);
        let s = s.push(116);
        assert(s =~= t.spec_name());
    }
    if t == TagName::Font {
        let s = Seq::<u8>::empty();
        lemma_hash_of_push(s, 102);
        let s = s.push(102);
        lemma_hash_of_push(s, 111);
        let s = s.push(111);
        lemma_hash_of_push(s, 110);
        let s = s.push(110);
        lemma_hash_of_push(s, 116);
        let s = s.push(116);
        assert(s =~= t.spec_name());
    }
}

#[verifier::rlimit(40)]
proof fn lemma_hash_matches_name_16(t: TagName)
    requires
        t == TagName::A || t == TagName::Area || t == TagName::Base || t == TagName::Basefont,
    ensures
        spec_hash_of(t.spec_name()) == Some(t.spec_hash()),
{
    assert(spec_hash_of(Seq::<u8>::empty()) == Some(0u64));
    if t == TagName::A {
        let s = Seq::<u8>::empty();
        lemma_hash_of_push(s, 97);
        let s = s.push(97);
        assert(s =~= t.spec_name());
    }
    if t == TagName::Area {
        let s = Seq::<u8>::empty();
        lemma_hash_of_push(s, 97);
        let s = s.push(97);
        lemma_hash_of_push(s, 114);
        let s = s.push(114);
        lemma_hash_of_push(s, 101);
        let s = s.push(101);
        lemma_hash_of_push(s, 97);
        let s = s.push(97);
        assert(s =~= t.spec_name());
    }
    if t == TagName::Base {
        let s = Seq::<u8>::empty();
        lemma_hash_of_push(s, 98);
        let s = s.push(98);
        lemma_hash_of_push(s, 97);
        let s = s.push(97);
        lemma_hash_of_push(s, 115);
        let s = s.push(115);
        lemma_hash_of_push(s, 101);
        let s = s.push(101);
        assert(s =~= t.spec_name());
    }
    if t == TagName::Basefont {
        let s = Seq::<u8>::empty();
        lemma_hash_of_push(s, 98);
        let s = s.push(98);
        lemma_hash_of_push(s, 97);
        let s = s.push(97);
        lemma_hash_of_push(s, 115);
        let s = s.push(115);
        lemma_hash_of_push(s, 101);
        let s = s.push(101);
        lemma_hash_of_push(s, 102);
        let s = s.push(102);
        lemma_hash_of_push(s, 111);
        let s = s.push(111);
        lemma_hash_of_push(s, 110);
        let s = s.push(110);
        lemma_hash_of_push(s, 116);
        let s = s.push(116);
        assert(s =~= t.spec_name());
    }
}

#[verifier::rlimit(40)]
proof fn lemma_hash_matches_name_17(t: TagName)
    requires
        t == TagName::Bgsound || t == TagName::Col || t == TagName::Input || t == TagName::Keygen,
    ensures
        spec_hash_of(t.spec_name()) == Some(t.spec_hash()),
{
    assert(spec_hash_of(Seq::<u8>::empty()) == Some(0u64));
    if t == TagName::Bgsound {
        let s = Seq::<u8>::empty();
        lemma_hash_of_push(s, 98);
        let s = s.push(98);
        lemma_hash_of_push(s, 103);
        let s = s.push(103);
        lemma_hash_of_push(s, 115);
        let s = s.push(115);
        lemma_hash_of_push(s, 111);
        let s = s.push(111);
        lemma_hash_of_push(s, 117);
        let s = s.push(117);
        lemma_hash_of_push(s, 110);
        let s = s.push(110);
        lemma_hash_of_push(s, 100);
        let s = s.push(100);
        assert(s =~= t.spec_name());
    }
    if t == TagName::Col {
        let s = Seq::<u8>::empty();
        lemma_hash_of_push(s, 99);
        let s = s.push(99);
        lemma_hash_of_push(s, 111);
        let s = s.push(111);
        lemma_hash_of_push(s, 108);
        let s = s.push(108);
        assert(s =~= t.spec_name());
    }
    if t == TagName::Input {
        let s = Seq::<u8>::empty();
        lemma_hash_of_push(s, 105);
        let s = s.push(105);
        lemma_hash_of_push(s, 110);
        let s = s.push(110);
        lemma_hash_of_push(s, 112);
        let s = s.push(112);
        lemma_hash_of_push(s, 117);
        let s = s.push(117);
        lemma_hash_of_push(s, 116);
        let s = s.push(116);
        assert(s =~= t.spec_name());
    }
    if t == TagName::Keygen {
        let s = Seq::<u8>::empty();
        lemma_hash_of_push(s, 107);
        let s = s.push(107);
        lemma_hash_of_push(s, 101);
        let s = s.push(101);
        lemma_hash_of_push(s, 121);
        let s = s.push(121);
        lemma_hash_of_push(s, 103);
        let s = s.push(103);
        lemma_hash_of_push(s, 101);
        let s = s.push(101);
        lemma_hash_of_push(s, 110);
        let s = s.push(110);
        assert(s =~= t.spec_name());
    }
}

#[verifier::rlimit(40)]
proof fn lemma_hash_matches_name_18(t: TagName)
    requires
        t == TagName::Link || t == TagName::Param || t == TagName::Source || t == TagName::Track,
    ensures
        spec_hash_of(t.spec_name()) == Some(t.spec_hash()),
{
    assert(spec_hash_of(Seq::<u8>::empty()) == Some(0u64));
    if t == TagName::Link {
        let s = Seq::<u8>::empty();
        lemma_hash_of_push(s, 108);
        let s = s.push(108);
        lemma_hash_of_push(s, 105);
        let s = s.push(105);
        lemma_hash_of_push(s, 110);
        let s = s.push(110);
        lemma_hash_of_push(s, 107);
        let s = s.push(107);
        assert(s =~= t.spec_name());
    }
    if t == TagName::Param {
        let s = Seq::<u8>::empty();
        lemma_hash_of_push(s, 112);
        let s = s.push(112);
        lemma_hash_of_push(s, 97);
        let s = s.push(97);
        lemma_hash_of_push(s, 114);
        let s = s.push(114);
        lemma_hash_of_push(s, 97);
        let s = s.push(97);
        lemma_hash_of_push(s, 109);
        let s = s.push(109);
        assert(s =~= t.spec_name());
    }
    if t == TagName::Source {
        let s = Seq::<u8>::empty();
        lemma_hash_of_push(s, 115);
        let s = s.push(115);
        lemma_hash_of_push(s, 111);
        let s = s.push(111);
        lemma_hash_of_push(s, 117);
        let s = s.push(117);
        lemma_hash_of_push(s, 114);
        let s = s.push(114);
        lemma_hash_of_push(s, 99);
        let s = s.push(99);
        lemma_hash_of_push(s, 101);
        let s = s.push(101);
        assert(s =~= t.spec_name());
    }
    if t == TagName::Track {
        let s = Seq::<u8>::empty();
        lemma_hash_of_push(s, 116);
        let s = s.push(116);
        lemma_hash_of_push(s, 114);
        let s = s.push(114);
        lemma_hash_of_push(s, 97);
        let s = s.push(97);
        lemma_hash_of_push(s, 99);
        let s = s.push(99);
        lemma_hash_of_push(s, 107);
        let s = s.push(107);
        assert(s =~= t.spec_name());
    }
}

#[verifier::rlimit(40)]
proof fn lemma_hash_matches_name_19(t: TagName)
    requires
        t == TagName::Wbr,
    ensures
        spec_hash_of(t.spec_name()) == Some(t.spec_hash()),
{
    assert(spec_hash_of(Seq::<u8>::empty()) == Some(0u64));
    if t == TagName::Wbr {
        let s = Seq::<u8>::empty();
        lemma_hash_of_push(s, 119);
        let s = s.push(119);
        lemma_hash_of_push(s, 98);
        let s = s.push(98);
        lemma_hash_of_push(s, 114);
        let s = s.push(114);
        assert(s =~= t.spec_name());
    }
}

} // verus!
