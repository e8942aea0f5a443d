//! What an error says of a component's own quantization: it names QCC, and never
//! QCD, whose body has the same form.

use super::cursor::{be16, truncated};
use super::segments::{component_spec, index_width, qcc_spec, qcc_text};
use super::style_text::{lacks, lemma_letter_missing, lemma_part_mentioned, mentions};
use crate::text::{decimal_text, digit_text};
use vstd::prelude::*;
use vstd::string::*;

verus! {

/// A number has no `D`.
proof fn lemma_number_lacks(n: nat)
    ensures
        lacks(decimal_text(n), 'D'),
    decreases n,
{
    let last = digit_text((n % 10) as int);
    assert(lacks(last, 'D')) by {
        reveal_strlit("0");
        reveal_strlit("1");
        reveal_strlit("2");
        reveal_strlit("3");
        reveal_strlit("4");
        reveal_strlit("5");
        reveal_strlit("6");
        reveal_strlit("7");
        reveal_strlit("8");
        reveal_strlit("9");
    }
    if n >= 10 {
        lemma_number_lacks(n / 10);
    }
}

/// What is said of a QCC body has no `D`.
proof fn lemma_qcc_text_lacks(b: Seq<u8>, count: int)
    ensures
        lacks(qcc_text(b, count), 'D'),
{
    let index = if count < 257 {
        b[0] as int
    } else {
        be16(b, 0)
    };
    lemma_number_lacks(index as nat);
    lemma_number_lacks(count as nat);
    lemma_number_lacks((b[index_width(count)] % 32) as nat);
    reveal_strlit("QCC");
    reveal_strlit("truncated marker segment");
    reveal_strlit(" targets component ");
    reveal_strlit(", but SIZ declares ");
    reveal_strlit(" sets reserved quantization style ");
    reveal_strlit(" carries no step entries");
    reveal_strlit(" step table is truncated");
    reveal_strlit("derived ");
    reveal_strlit(" must carry exactly one step entry");
}

/// A malformed QCC is named: unless the body just ends too early, the text mentions
/// QCC. It never mentions QCD.
pub proof fn lemma_qcc_text_names(b: Seq<u8>, count: int)
    requires
        qcc_spec(b, count) is Err,
    ensures
        qcc_text(b, count) != truncated() ==> mentions(qcc_text(b, count), "QCC"@),
        !mentions(qcc_text(b, count), "QCD"@),
{
    lemma_qcc_text_lacks(b, count);
    reveal_strlit("QCD");
    lemma_letter_missing(qcc_text(b, count), "QCD"@, 2);
    let none = Seq::<char>::empty();
    if component_spec(b, count) is Err {
        let behind = qcc_text(b, count).skip("QCC"@.len() as int);
        if b.len() >= index_width(count) {
            lemma_part_mentioned(none, "QCC"@, behind);
            assert(none + "QCC"@ + behind =~= qcc_text(b, count));
        }
    } else if b.len() > index_width(count) {
        let style = b[index_width(count)] % 32;
        let left = b.len() - index_width(count) - 1;
        if style > 2 || style == 0 || left == 0 || left % 2 != 0 {
            let behind = qcc_text(b, count).skip("QCC"@.len() as int);
            lemma_part_mentioned(none, "QCC"@, behind);
            assert(none + "QCC"@ + behind =~= qcc_text(b, count));
        } else {
            lemma_part_mentioned("derived "@, "QCC"@, " must carry exactly one step entry"@);
        }
    }
}

} // verus!
