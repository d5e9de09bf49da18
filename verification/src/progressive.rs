//! Progressive disclosure: telling the reader that content was filtered.
use vstd::prelude::*;
use vstd::string::*;
use crate::chunker::{Chunk, ChunkView};
use crate::numfmt::{digits, u64_to_decimal};
use crate::textsplit::{replace, replace_all};

verus! {

/// Appends a disclosure hint to content from which chunks were dropped.
pub struct ProgressiveDisclosureAnnotator {
    /// Whether hints are added.
    pub enabled: bool,
}

/// The hint template with `{shown}`, `{total}` and `{id}` filled in.
pub open spec fn spec_hint(template: Seq<char>, shown: nat, total: nat, id: Seq<char>) -> Seq<char> {
    replace_all(
        replace_all(
            replace_all(template, seq!['{', 's', 'h', 'o', 'w', 'n', '}'], digits(shown, 10)),
            seq!['{', 't', 'o', 't', 'a', 'l', '}'],
            digits(total, 10),
        ),
        seq!['{', 'i', 'd', '}'],
        id,
    )
}

impl ProgressiveDisclosureAnnotator {
    /// An annotator, on or off.
    pub fn new(enabled: bool) -> (a: ProgressiveDisclosureAnnotator)
        ensures
            a.enabled == enabled,
    {
        ProgressiveDisclosureAnnotator { enabled }
    }

    /// When enabled and some chunks were dropped, appends a blank line and
    /// the hint (`{shown}` chunks shown of `{total}`, request `{id}`) to the
    /// content and hands the dropped chunks back; otherwise returns the
    /// content unchanged and no chunks.
    pub fn annotate(
        &self,
        content: String,
        shown: usize,
        dropped_chunks: Vec<Chunk>,
        request_id: &str,
        hint_text: &str,
    ) -> (r: (String, Vec<Chunk>))
        requires
            shown + dropped_chunks.len() <= usize::MAX,
        ensures
            !self.enabled || dropped_chunks.len() == 0 ==> r.0@ == content@ && r.1.len() == 0,
            self.enabled && dropped_chunks.len() > 0 ==> {
                &&& r.0@ == content@ + seq!['\n', '\n'] + spec_hint(
                    hint_text@,
                    shown as nat,
                    (shown + dropped_chunks.len()) as nat,
                    request_id@,
                )
                &&& r.1@ == dropped_chunks@
            },
    {
        if !self.enabled {
            return (content, Vec::new());
        }
        if dropped_chunks.len() == 0 {
            return (content, Vec::new());
        }
        let total = shown + dropped_chunks.len();
        let shown_text = u64_to_decimal(shown as u64);
        let total_text = u64_to_decimal(total as u64);
        proof {
            reveal_strlit("{shown}");
            reveal_strlit("{total}");
            reveal_strlit("{id}");
            reveal_strlit("\n\n");
            assert("{shown}"@ =~= seq!['{', 's', 'h', 'o', 'w', 'n', '}']);
            assert("{total}"@ =~= seq!['{', 't', 'o', 't', 'a', 'l', '}']);
            assert("{id}"@ =~= seq!['{', 'i', 'd', '}']);
            assert("\n\n"@ =~= seq!['\n', '\n']);
        }
        let h1 = replace(hint_text, "{shown}", shown_text.as_str());
        let h2 = replace(h1.as_str(), "{total}", total_text.as_str());
        let hint = replace(h2.as_str(), "{id}", request_id);
        let mut annotated = content;
        annotated.append("\n\n");
        annotated.append(hint.as_str());
        (annotated, dropped_chunks)
    }
}

} // verus!
