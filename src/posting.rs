use std::rc::Rc;
use vstd::prelude::*;

verus! {

/// A position record: where a word occurs in a document.
#[derive(Clone, Copy, Debug, PartialEq, Eq, PartialOrd, Ord, Hash, Default)]
pub struct DocIndex {
    pub document_id: u64,
    pub attribute: u16,
    pub word_index: u16,
    pub char_index: u16,
    pub char_length: u16,
}

/// Positions are grouped by document: document identifiers never decrease.
pub open spec fn doc_sorted(s: Seq<DocIndex>) -> bool {
    forall|i: int, j: int| 0 <= i <= j < s.len() ==> #[trigger] s[i].document_id <= #[trigger] s[j].document_id
}

/// The order of positions: by document, then attribute, word, character
/// and length.
pub open spec fn doc_index_lt(a: DocIndex, b: DocIndex) -> bool {
    let same_doc = a.document_id == b.document_id;
    let same_attr = same_doc && a.attribute == b.attribute;
    let same_word = same_attr && a.word_index == b.word_index;
    let same_char = same_word && a.char_index == b.char_index;
    ||| a.document_id < b.document_id
    ||| same_doc && a.attribute < b.attribute
    ||| same_attr && a.word_index < b.word_index
    ||| same_word && a.char_index < b.char_index
    ||| same_char && a.char_length < b.char_length
}

/// A posting list: positions in strictly increasing order, so sorted and
/// without duplicates.
pub open spec fn postings_sorted(s: Seq<DocIndex>) -> bool {
    forall|i: int, j: int| 0 <= i < j < s.len() ==> doc_index_lt(#[trigger] s[i], #[trigger] s[j])
}

/// A sorted posting list is grouped by document and has no duplicates.
pub proof fn lemma_postings_sorted_grouped(s: Seq<DocIndex>)
    requires
        postings_sorted(s),
    ensures
        doc_sorted(s),
        s.no_duplicates(),
{
    assert forall|i: int, j: int| 0 <= i <= j < s.len() implies #[trigger] s[i].document_id
        <= #[trigger] s[j].document_id by {
        if i < j {
            assert(doc_index_lt(s[i], s[j]));
        }
    }
    assert forall|i: int, j: int| 0 <= i < s.len() && 0 <= j < s.len() && i != j implies s[i] != s[j] by {
        if i < j {
            assert(doc_index_lt(s[i], s[j]));
        } else {
            assert(doc_index_lt(s[j], s[i]));
        }
    }
}

/// A window over a shared posting list, or an owned edited copy of one.
#[derive(Clone, Debug)]
#[allow(inconsistent_fields)]
pub enum PostingsListView {
    Original { input: Rc<Vec<u8>>, postings_list: Rc<Vec<DocIndex>>, offset: usize, len: usize },
    Rewritten { input: Rc<Vec<u8>>, postings_list: Vec<DocIndex> },
}

impl View for PostingsListView {
    type V = Seq<DocIndex>;

    /// The positions the view exposes.
    open spec fn view(&self) -> Seq<DocIndex> {
        match self {
            PostingsListView::Original { postings_list, offset, len, .. } => {
                postings_list@.subrange(*offset as int, *offset + *len)
            },
            PostingsListView::Rewritten { postings_list, .. } => postings_list@,
        }
    }
}

impl PostingsListView {
    /// The window of an original view lies inside its backing list.
    pub open spec fn wf(&self) -> bool {
        match self {
            PostingsListView::Original { postings_list, offset, len, .. } => {
                *offset + *len <= postings_list@.len() <= usize::MAX && postings_sorted(postings_list@)
            },
            PostingsListView::Rewritten { postings_list, .. } => postings_sorted(postings_list@),
        }
    }

    /// The query word bytes the positions were found for.
    pub open spec fn input_bytes(&self) -> Seq<u8> {
        match self {
            PostingsListView::Original { input, .. } => input@,
            PostingsListView::Rewritten { input, .. } => input@,
        }
    }

    /// The sub-window `[off, off + len)` of an original view, sharing its backing list.
    pub open spec fn spec_range(&self, off: int, len: int) -> PostingsListView {
        match self {
            PostingsListView::Original { input, postings_list, offset, .. } => {
                PostingsListView::Original {
                    input: *input,
                    postings_list: *postings_list,
                    offset: (*offset + off) as usize,
                    len: len as usize,
                }
            },
            PostingsListView::Rewritten { .. } => *self,
        }
    }

    pub fn original(input: Rc<Vec<u8>>, postings_list: Rc<Vec<DocIndex>>) -> (r: PostingsListView)
        requires
            postings_sorted(postings_list@),
        ensures
            r == (PostingsListView::Original {
                input,
                postings_list,
                offset: 0,
                len: postings_list@.len() as usize,
            }),
            r is Original,
            r.wf(),
            r@ == postings_list@,
            r.input_bytes() == input@,
    {
        let len = postings_list.len();
        let r = PostingsListView::Original { input, postings_list, offset: 0, len };
        proof {
            assert(r@ =~= postings_list@);
        }
        r
    }

    pub fn rewritten(input: Rc<Vec<u8>>, postings_list: Vec<DocIndex>) -> (r: PostingsListView)
        requires
            postings_sorted(postings_list@),
        ensures
            r is Rewritten,
            r.wf(),
            r@ == postings_list@,
            r.input_bytes() == input@,
    {
        PostingsListView::Rewritten { input, postings_list }
    }

    /// Replaces the positions by an owned list, keeping the query word.
    pub fn rewrite_with(&mut self, postings_list: Vec<DocIndex>)
        requires
            postings_sorted(postings_list@),
        ensures
            (*final(self)) is Rewritten,
            final(self).wf(),
            final(self)@ == postings_list@,
            final(self).input_bytes() == old(self).input_bytes(),
    {
        let input = match self {
            PostingsListView::Original { input, .. } => input.clone(),
            PostingsListView::Rewritten { input, .. } => input.clone(),
        };
        *self = PostingsListView::rewritten(input, postings_list);
    }

    pub fn len(&self) -> (r: usize)
        requires
            self.wf(),
        ensures
            r == self@.len(),
    {
        match self {
            PostingsListView::Original { len, .. } => *len,
            PostingsListView::Rewritten { postings_list, .. } => postings_list.len(),
        }
    }

    pub fn input(&self) -> (r: &[u8])
        ensures
            r@ == self.input_bytes(),
    {
        match self {
            PostingsListView::Original { input, .. } => input.as_slice(),
            PostingsListView::Rewritten { input, .. } => input.as_slice(),
        }
    }

    /// The positions of the view as a slice.
    pub fn as_slice(&self) -> (r: &[DocIndex])
        requires
            self.wf(),
        ensures
            r@ == self@,
            r@.len() == self@.len(),
            postings_sorted(r@),
            (match self {
                PostingsListView::Original { postings_list, offset, len, .. } => r@ == postings_list@.subrange(
                    *offset as int,
                    *offset + *len,
                ),
                PostingsListView::Rewritten { postings_list, .. } => r@ == postings_list@,
            }),
    {
        match self {
            PostingsListView::Original { postings_list, offset, len, .. } => {
                let n = postings_list.len();
                let r = &postings_list.as_slice()[*offset..*offset + *len];
                proof {
                    assert forall|i: int, j: int| 0 <= i < j < r@.len() implies doc_index_lt(
                        #[trigger] r@[i],
                        #[trigger] r@[j],
                    ) by {
                        assert(r@[i] == postings_list@[*offset + i]);
                        assert(r@[j] == postings_list@[*offset + j]);
                    }
                }
                r
            },
            PostingsListView::Rewritten { postings_list, .. } => postings_list.as_slice(),
        }
    }

    /// A narrower window of an original view; a rewritten view has no backing
    /// list to take a window of.
    pub fn range(&self, range_offset: usize, range_len: usize) -> (r: PostingsListView)
        requires
            self.wf(),
            self is Original,
            range_offset + range_len <= self@.len(),
        ensures
            r == self.spec_range(range_offset as int, range_len as int),
            r is Original,
            r.wf(),
            r@ == self@.subrange(range_offset as int, range_offset + range_len),
            r.input_bytes() == self.input_bytes(),
    {
        match self {
            PostingsListView::Original { input, postings_list, offset, len } => {
                let n = postings_list.len();
                let r = PostingsListView::Original {
                    input: input.clone(),
                    postings_list: postings_list.clone(),
                    offset: *offset + range_offset,
                    len: range_len,
                };
                proof {
                    assert(r@ =~= self@.subrange(range_offset as int, range_offset + range_len));
                }
                r
            },
            PostingsListView::Rewritten { .. } => {
                proof {
                    assert(false);
                }
                PostingsListView::Rewritten { input: Rc::new(Vec::new()), postings_list: Vec::new() }
            },
        }
    }
}

/// Taking a window of an original view exposes exactly that slice of the
/// view's positions, and the window is itself a well-formed original view.
pub proof fn lemma_range_is_subrange(v: PostingsListView, off: int, len: int)
    requires
        v.wf(),
        v is Original,
        0 <= off,
        0 <= len,
        off + len <= v@.len(),
    ensures
        v.spec_range(off, len) is Original,
        v.spec_range(off, len).wf(),
        v.spec_range(off, len)@ == v@.subrange(off, off + len),
        v.spec_range(off, len).input_bytes() == v.input_bytes(),
{
    assert(v.spec_range(off, len)@ =~= v@.subrange(off, off + len));
}

} // verus!
