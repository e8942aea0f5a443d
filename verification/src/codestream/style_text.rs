//! What an error says of a code-block style that is not decoded: it names the
//! high-throughput flags that are set, and no other flag.

use super::markers::code_block_style::{flag_spec, names_from, undecoded};
use super::segments::style_text;
use vstd::prelude::*;
use vstd::string::*;

verus! {

/// `name` occurs in `text`.
pub open spec fn mentions(text: Seq<char>, name: Seq<char>) -> bool {
    exists|i: int|
        0 <= i && i + name.len() <= text.len() && #[trigger] text.subrange(i, i + name.len())
            == name
}

/// A text without one of a name's letters does not mention it.
pub proof fn lemma_letter_missing(text: Seq<char>, name: Seq<char>, k: int)
    requires
        0 <= k < name.len(),
        forall|i: int| 0 <= i < text.len() ==> #[trigger] text[i] != name[k],
    ensures
        !mentions(text, name),
{
    if mentions(text, name) {
        let i = choose|i: int|
            0 <= i && i + name.len() <= text.len() && #[trigger] text.subrange(i, i + name.len())
                == name;
        assert(text.subrange(i, i + name.len())[k] == text[i + k]);
    }
}

/// A text mentions what stands in it.
pub proof fn lemma_part_mentioned(before: Seq<char>, name: Seq<char>, behind: Seq<char>)
    ensures
        mentions(before + name + behind, name),
{
    let text = before + name + behind;
    let i = before.len() as int;
    assert(text.subrange(i, i + name.len()) =~= name);
}

/// The high-throughput flags of a style, one by one.
proof fn lemma_undecoded_flags(style: u8)
    ensures
        undecoded(style) == 0 <==> style < 0x40,
        undecoded(style) & 0x01 == 0,
        undecoded(style) & 0x02 == 0,
        undecoded(style) & 0x04 == 0,
        undecoded(style) & 0x08 == 0,
        undecoded(style) & 0x10 == 0,
        undecoded(style) & 0x20 == 0,
        undecoded(style) & 0x40 == style & 0x40,
        undecoded(style) & 0x80 == style & 0x80,
        style >= 0x40 ==> style & 0x40 != 0 || style & 0x80 != 0,
{
    assert({
        let u = style & 0xC0;
        &&& u == 0 <==> style < 0x40
        &&& u & 0x01 == 0 && u & 0x02 == 0 && u & 0x04 == 0
        &&& u & 0x08 == 0 && u & 0x10 == 0 && u & 0x20 == 0
        &&& u & 0x40 == style & 0x40 && u & 0x80 == style & 0x80
        &&& style >= 0x40 ==> style & 0x40 != 0 || style & 0x80 != 0
    }) by (bit_vector);
}

/// The names of a style's high-throughput flags.
proof fn lemma_undecoded_names(style: u8)
    requires
        style >= 0x40,
    ensures
        names_from(undecoded(style), 0, Seq::empty()) == if style & 0x80 == 0 {
            flag_spec(6).1@
        } else if style & 0x40 == 0 {
            flag_spec(7).1@
        } else {
            flag_spec(6).1@ + ", "@ + flag_spec(7).1@
        },
{
    lemma_undecoded_flags(style);
    reveal_strlit("HTJ2K high-throughput block coding");
    reveal_with_fuel(names_from, 9);
}

/// A letter does not occur in a text.
pub open spec fn lacks(text: Seq<char>, letter: char) -> bool {
    forall|i: int| 0 <= i < text.len() ==> #[trigger] text[i] != letter
}

/// The fixed parts of the text have none of three letters.
proof fn lemma_frame_lacks(letter: char)
    requires
        letter == 'a' || letter == 'r' || letter == 'x',
    ensures
        lacks("COD"@, letter),
        lacks("COC"@, letter),
        lacks(" code-block style ("@, letter),
        lacks(") is outside the decoded subset"@, letter),
{
    reveal_strlit("COD");
    reveal_strlit("COC");
    reveal_strlit(" code-block style (");
    reveal_strlit(") is outside the decoded subset");
}

/// The names of the high-throughput flags lack a letter of each other flag's name.
proof fn lemma_names_lack()
    ensures
        lacks(flag_spec(6).1@, 'a'),
        lacks(flag_spec(7).1@, 'a'),
        lacks(", "@, 'a'),
        lacks(flag_spec(6).1@, 'x'),
        lacks(flag_spec(7).1@, 'r'),
{
    reveal_strlit("HTJ2K high-throughput block coding");
    reveal_strlit("HTJ2K mixed-mode block coding");
    reveal_strlit(", ");
}

/// The decoded flags' names have an `a` each.
proof fn lemma_decoded_letter(k: int) -> (at: int)
    requires
        0 <= k < 6,
    ensures
        0 <= at < flag_spec(k).1@.len(),
        flag_spec(k).1@[at] == 'a',
{
    reveal_strlit("selective arithmetic coding bypass");
    reveal_strlit("reset context probabilities");
    reveal_strlit("termination on each coding pass");
    reveal_strlit("vertically causal context");
    reveal_strlit("predictable termination");
    reveal_strlit("segmentation symbols");
    if k == 0 {
        10
    } else if k == 1 {
        18
    } else if k == 2 {
        6
    } else if k == 3 {
        6
    } else if k == 4 {
        7
    } else {
        7
    }
}

/// The text of an undecoded style lacks a letter that its names lack.
proof fn lemma_text_lacks(origin: Seq<char>, style: u8, letter: char)
    requires
        letter == 'a' || letter == 'r' || letter == 'x',
        lacks(origin, letter),
        lacks(names_from(undecoded(style), 0, Seq::empty()), letter),
    ensures
        lacks(style_text(origin, style), letter),
{
    lemma_frame_lacks(letter);
}

/// The two high-throughput flags are named where they are set, and only there.
proof fn lemma_set_flags_named(origin: Seq<char>, style: u8)
    requires
        style >= 0x40,
        origin == "COD"@ || origin == "COC"@,
    ensures
        mentions(style_text(origin, style), flag_spec(6).1@) <==> style & 0x40 != 0,
        mentions(style_text(origin, style), flag_spec(7).1@) <==> style & 0x80 != 0,
{
    let (six, seven) = (flag_spec(6).1@, flag_spec(7).1@);
    let (before, behind) = (
        origin + " code-block style ("@,
        ") is outside the decoded subset"@,
    );
    lemma_undecoded_flags(style);
    lemma_undecoded_names(style);
    lemma_names_lack();
    lemma_frame_lacks('x');
    lemma_frame_lacks('r');
    if style & 0x80 == 0 {
        lemma_part_mentioned(before, six, behind);
        lemma_text_lacks(origin, style, 'x');
        reveal_strlit("HTJ2K mixed-mode block coding");
        lemma_letter_missing(style_text(origin, style), seven, 8);
    } else if style & 0x40 == 0 {
        lemma_part_mentioned(before, seven, behind);
        lemma_text_lacks(origin, style, 'r');
        reveal_strlit("HTJ2K high-throughput block coding");
        lemma_letter_missing(style_text(origin, style), six, 13);
    } else {
        lemma_part_mentioned(before, six, ", "@ + seven + behind);
        lemma_part_mentioned(before + six + ", "@, seven, behind);
        assert(style_text(origin, style) =~= before + six + (", "@ + seven + behind));
        assert(style_text(origin, style) =~= before + six + ", "@ + seven + behind);
    }
}

/// What COD and COC say of a style that they do not decode names the
/// high-throughput flags that the style sets, and none of the six decoded ones.
pub proof fn lemma_style_text_names(origin: Seq<char>, style: u8)
    requires
        undecoded(style) != 0,
        origin == "COD"@ || origin == "COC"@,
    ensures
        style >= 0x40,
        forall|k: int|
            0 <= k < 6 ==> !mentions(style_text(origin, style), (#[trigger] flag_spec(k)).1@),
        forall|k: int|
            6 <= k < 8 ==> (mentions(style_text(origin, style), (#[trigger] flag_spec(k)).1@)
                <==> style & flag_spec(k).0 != 0),
{
    lemma_undecoded_flags(style);
    lemma_undecoded_names(style);
    lemma_names_lack();
    lemma_frame_lacks('a');
    lemma_text_lacks(origin, style, 'a');
    lemma_set_flags_named(origin, style);
    assert forall|k: int| 0 <= k < 6 implies !mentions(
        style_text(origin, style),
        (#[trigger] flag_spec(k)).1@,
    ) by {
        let at = lemma_decoded_letter(k);
        lemma_letter_missing(style_text(origin, style), flag_spec(k).1@, at);
    }
    assert forall|k: int| 6 <= k < 8 implies (mentions(
        style_text(origin, style),
        (#[trigger] flag_spec(k)).1@,
    ) <==> style & flag_spec(k).0 != 0) by {
        assert(k == 6 || k == 7);
    }
}

} // verus!
